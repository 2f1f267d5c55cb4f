//! Promises: single-assignment values with continuations.
//!
//! All promises of one session live in a [`PromiseGraph`]. A [`Promise`] is a
//! small handle that names one of them. A promise is either a root, settled
//! by its owner, or derived: the image of one promise under a transform, or
//! the join of several promises. A derived promise settles at the moment the
//! promises it depends on have settled, never later.

use vstd::prelude::*;

verus! {

/// Why a promise has no value and never will have one.
#[derive(Clone, Copy, PartialEq, Eq, Structural, Debug)]
pub struct Failure {
    /// Index of the root promise that was rejected.
    pub origin: usize,
    /// The code that the root was rejected with.
    pub code: u64,
}

/// Why a promise could not be settled.
#[derive(Clone, Copy, PartialEq, Eq, Structural, Debug)]
pub enum SettleError {
    /// The promise already holds a value or a failure.
    AlreadySettled,
    /// The promise is derived: only what it depends on settles it.
    Derived,
}

/// A handle to one promise of a [`PromiseGraph`].
#[derive(Clone, Copy, PartialEq, Eq, Structural, Debug)]
pub struct Promise {
    pub index: usize,
}

/// The state of one promise: its value or failure, once settled, and the
/// promises that continue from it, in the order in which they registered.
pub struct PromiseInternal<T> {
    pub value: Option<T>,
    pub failure: Option<Failure>,
    pub links: Vec<usize>,
}

/// Where the value of a promise comes from.
pub enum Source<F, J> {
    /// Settled from outside, by `resolve` or `reject`.
    Root,
    /// The transform applied to the value of `parent`.
    Then { parent: usize, transform: F },
    /// The values of `inputs`, in that order, put together by `assemble`.
    Join { inputs: Vec<usize>, assemble: J },
}

/// All promises of a session. `T` is the type of the values, `F` the type of
/// the transforms of `then`, `J` the type of the assemblers of `join`.
///
/// A graph has one type of each. Where the values of a session are of
/// several kinds, `T` is an enum of them; where its transforms differ, `F` is
/// a type that all of them have, such as a function pointer or a boxed
/// closure. No promise depends on a younger one, so nothing can wait for
/// itself.
pub struct PromiseGraph<T, F, J> {
    cells: Vec<PromiseInternal<T>>,
    sources: Vec<Source<F, J>>,
}

impl<T> PromiseInternal<T> {
    /// Neither a value nor a failure yet.
    pub open spec fn is_pending(&self) -> bool {
        self.value.is_none() && self.failure.is_none()
    }

    /// At most one of value and failure is present.
    pub open spec fn wf(&self) -> bool {
        !(self.value.is_some() && self.failure.is_some())
    }
}

/// The indices of the promises `inputs`, in that order.
pub open spec fn indices_of(inputs: Seq<Promise>) -> Seq<usize> {
    Seq::new(inputs.len(), |i: int| inputs[i].index)
}

/// The transform accepts every value.
pub open spec fn total_transform<T, F: Fn(&T) -> T>(transform: F) -> bool {
    forall|x: &T| call_requires(transform, (x,))
}

/// The assembler accepts every sequence of values.
pub open spec fn total_assemble<T, J: Fn(Vec<&T>) -> T>(assemble: J) -> bool {
    forall|args: Vec<&T>| call_requires(assemble, (args,))
}

/// `out` is a result of the transform on `x`.
pub open spec fn transformed<T, F: Fn(&T) -> T>(transform: F, x: T, out: T) -> bool {
    call_ensures(transform, (&x,), out)
}

/// `args` refers to the values `inputs`, one for one.
pub open spec fn refers_to<T>(args: Vec<&T>, inputs: Seq<T>) -> bool {
    &&& args@.len() == inputs.len()
    &&& forall|i: int| 0 <= i < inputs.len() ==> *(#[trigger] args@[i]) == inputs[i]
}

/// `out` is a result of the assembler on the values `inputs`.
pub open spec fn assembled<T, J: Fn(Vec<&T>) -> T>(assemble: J, inputs: Seq<T>, out: T) -> bool {
    exists|args: Vec<&T>| refers_to(args, inputs) && call_ensures(assemble, (args,), out)
}

impl<T, F: Fn(&T) -> T, J: Fn(Vec<&T>) -> T> PromiseGraph<T, F, J> {
    /// The state of each promise, by index.
    pub closed spec fn cells(&self) -> Seq<PromiseInternal<T>> {
        self.cells@
    }

    /// The source of each promise, by index.
    pub closed spec fn sources(&self) -> Seq<Source<F, J>> {
        self.sources@
    }

    /// The handle names a promise of this graph.
    pub open spec fn contains(&self, p: Promise) -> bool {
        p.index < self.cells().len()
    }

    /// Promise `i` has neither a value nor a failure yet.
    pub open spec fn pending(&self, i: int) -> bool {
        self.cells()[i].is_pending()
    }

    /// Promise `i` holds a value.
    pub open spec fn settled(&self, i: int) -> bool {
        self.cells()[i].value.is_some()
    }

    /// Promise `i` holds a failure.
    pub open spec fn failed(&self, i: int) -> bool {
        self.cells()[i].failure.is_some()
    }

    /// Promise `d` depends directly on promise `s`.
    pub open spec fn depends_on(&self, d: int, s: int) -> bool {
        match self.sources()[d] {
            Source::Root => false,
            Source::Then { parent, .. } => parent == s,
            Source::Join { inputs, .. } => exists|i: int|
                0 <= i < inputs@.len() && #[trigger] inputs@[i] == s,
        }
    }

    /// The values of the promises `inputs`, in that order.
    pub open spec fn values_of(&self, inputs: Seq<usize>) -> Seq<T> {
        Seq::new(inputs.len(), |i: int| self.cells()[inputs[i] as int].value.unwrap())
    }

    /// Every source of promise `d` is older than `d`, and its transform or
    /// assembler accepts every argument.
    pub open spec fn source_wf(&self, d: int) -> bool {
        match self.sources()[d] {
            Source::Root => true,
            Source::Then { parent, transform } => parent < d && total_transform::<T, F>(transform),
            Source::Join { inputs, assemble } => {
                &&& forall|i: int| 0 <= i < inputs@.len() ==> #[trigger] inputs@[i] < d
                &&& total_assemble::<T, J>(assemble)
            },
        }
    }

    /// The continuations of promise `s` are exactly the promises that depend
    /// on it, from the oldest to the youngest.
    pub open spec fn links_wf(&self, s: int) -> bool {
        let links = self.cells()[s].links@;
        &&& forall|k: int|
            0 <= k < links.len() ==> s < #[trigger] links[k] < self.cells().len()
                && self.depends_on(links[k] as int, s)
        &&& forall|j: int, k: int| 0 <= j < k < links.len() ==> links[j] < links[k]
        &&& forall|d: int|
            0 <= d < self.cells().len() && #[trigger] self.depends_on(d, s) ==> links.contains(
                d as usize,
            )
    }

    /// A promise with the source of promise `d` may hold `value` and
    /// `failure`, given the states of the promises it depends on.
    ///
    /// A root may hold anything. The image of a pending promise is pending;
    /// that of a settled one holds a result of the transform on its value;
    /// that of a failed one holds the same failure. A join with a failed
    /// input holds the failure of one of its failed inputs; otherwise, with
    /// every input settled, it holds a result of the assembler on their
    /// values; otherwise it is pending.
    pub open spec fn fits(&self, d: int, value: Option<T>, failure: Option<Failure>) -> bool {
        match self.sources()[d] {
            Source::Root => true,
            Source::Then { parent, transform } => {
                let from = self.cells()[parent as int];
                &&& from.is_pending() ==> value.is_none() && failure.is_none()
                &&& from.value.is_some() ==> value.is_some() && transformed(
                    transform,
                    from.value.unwrap(),
                    value.unwrap(),
                )
                &&& from.failure.is_some() ==> failure == from.failure
            },
            Source::Join { inputs, assemble } => {
                if exists|i: int| 0 <= i < inputs@.len() && self.failed(#[trigger] inputs@[i] as int) {
                    failure.is_some() && exists|i: int|
                        0 <= i < inputs@.len() && self.cells()[#[trigger] inputs@[i] as int].failure
                            == failure
                } else if forall|i: int|
                    0 <= i < inputs@.len() ==> self.settled(#[trigger] inputs@[i] as int) {
                    value.is_some() && assembled(assemble, self.values_of(inputs@), value.unwrap())
                } else {
                    value.is_none() && failure.is_none()
                }
            },
        }
    }

    /// The state of promise `d` is what the states of its sources make it.
    pub open spec fn consistent(&self, d: int) -> bool {
        self.fits(d, self.cells()[d].value, self.cells()[d].failure)
    }

    /// The shape of the graph is sound: every promise has a source, sources
    /// are older than what derives from them, and continuations mirror them.
    pub open spec fn structure_wf(&self) -> bool {
        &&& self.sources().len() == self.cells().len()
        &&& forall|d: int| 0 <= d < self.cells().len() ==> #[trigger] self.cells()[d].wf()
        &&& forall|d: int| 0 <= d < self.cells().len() ==> #[trigger] self.source_wf(d)
        &&& forall|s: int| 0 <= s < self.cells().len() ==> #[trigger] self.links_wf(s)
    }

    /// The graph holds the promises of `before`, with their sources, values
    /// and failures, and possibly younger ones.
    pub open spec fn extends(&self, before: &Self) -> bool {
        &&& before.cells().len() <= self.cells().len()
        &&& before.sources().len() <= self.sources().len()
        &&& forall|d: int|
            0 <= d < before.sources().len() ==> #[trigger] self.sources()[d] == before.sources()[d]
        &&& forall|d: int|
            0 <= d < before.cells().len() ==> (#[trigger] self.cells()[d]).value
                == before.cells()[d].value && self.cells()[d].failure == before.cells()[d].failure
    }

    /// The graph has the promises of `before` with their sources, and
    /// possibly younger ones. Values and failures are not spoken of.
    pub open spec fn keeps_shape(&self, before: &Self) -> bool {
        &&& before.cells().len() <= self.cells().len()
        &&& before.sources().len() <= self.sources().len()
        &&& forall|d: int|
            0 <= d < before.sources().len() ==> #[trigger] self.sources()[d] == before.sources()[d]
    }

    /// The graph is `before` after root `p` was settled: the shape and the
    /// continuations are the same, and no promise holds anything else than
    /// in `before` but `p` and the derived promises younger than `p` that
    /// were pending.
    pub open spec fn settled_from(&self, before: &Self, p: Promise) -> bool {
        &&& self.sources() == before.sources()
        &&& self.cells().len() == before.cells().len()
        &&& forall|d: int|
            0 <= d < before.cells().len() ==> (#[trigger] self.cells()[d]).links
                == before.cells()[d].links
        &&& forall|d: int|
            0 <= d < before.cells().len() && d != p.index && (d < p.index
                || before.sources()[d] is Root || !before.pending(d)) ==> (
            #[trigger] self.cells()[d]) == before.cells()[d]
    }

    /// `settled` lists the promises that were pending in `before` and are
    /// pending no longer, each once, from the oldest to the youngest.
    pub open spec fn lists_settled(&self, before: &Self, settled: Seq<Promise>) -> bool {
        &&& forall|i: int, j: int|
            0 <= i < j < settled.len() ==> (#[trigger] settled[i]).index < (
            #[trigger] settled[j]).index
        &&& forall|i: int|
            0 <= i < settled.len() ==> (#[trigger] settled[i]).index < before.cells().len()
                && before.pending(settled[i].index as int) && !self.pending(settled[i].index as int)
        &&& forall|d: int|
            0 <= d < before.cells().len() && #[trigger] before.pending(d) && !self.pending(d)
                ==> exists|i: int| 0 <= i < settled.len() && (#[trigger] settled[i]).index == d
    }

    /// The graph is `before` after root `p` was resolved with `value`: `p`
    /// holds the value, and no promise has failed that was pending.
    pub open spec fn resolved_from(&self, before: &Self, p: Promise, value: T) -> bool {
        &&& self.settled_from(before, p)
        &&& self.cells()[p.index as int].value == Some(value)
        &&& forall|d: int|
            0 <= d < before.cells().len() && before.pending(d) ==> !(#[trigger] self.failed(d))
    }

    /// The graph is `before` after root `p` was rejected with `failure`:
    /// `p` holds the failure, and so does every promise that has failed and
    /// was pending.
    pub open spec fn rejected_from(&self, before: &Self, p: Promise, failure: Failure) -> bool {
        &&& self.settled_from(before, p)
        &&& self.cells()[p.index as int].failure == Some(failure)
        &&& forall|d: int|
            0 <= d < before.cells().len() && before.pending(d) && #[trigger] self.failed(d)
                ==> self.cells()[d].failure == Some(failure)
    }

    /// The graph is sound and every derived promise is up to date.
    pub open spec fn wf(&self) -> bool {
        &&& self.structure_wf()
        &&& forall|d: int| 0 <= d < self.cells().len() ==> #[trigger] self.consistent(d)
    }
}


impl<T> PromiseInternal<T> {
    /// A pending promise without continuations.
    pub fn new() -> (cell: PromiseInternal<T>)
        ensures
            cell.is_pending(),
            cell.links@ == Seq::<usize>::empty(),
    {
        PromiseInternal { value: None, failure: None, links: Vec::new() }
    }

    /// Stores the value if the promise is pending, and refuses it otherwise.
    pub fn resolve(&mut self, value: T) -> (outcome: Result<(), SettleError>)
        ensures
            outcome.is_ok() <==> old(self).is_pending(),
            outcome.is_ok() ==> final(self).value == Some(value) && final(self).failure.is_none(),
            outcome.is_err() ==> outcome == Err::<(), SettleError>(SettleError::AlreadySettled)
                && *final(self) == *old(self),
            final(self).links == old(self).links,
    {
        if self.value.is_none() && self.failure.is_none() {
            self.value = Some(value);
            Ok(())
        } else {
            Err(SettleError::AlreadySettled)
        }
    }

    /// Stores the failure if the promise is pending, and refuses it otherwise.
    pub fn reject(&mut self, failure: Failure) -> (outcome: Result<(), SettleError>)
        ensures
            outcome.is_ok() <==> old(self).is_pending(),
            outcome.is_ok() ==> final(self).failure == Some(failure) && final(self).value.is_none(),
            outcome.is_err() ==> outcome == Err::<(), SettleError>(SettleError::AlreadySettled)
                && *final(self) == *old(self),
            final(self).links == old(self).links,
    {
        if self.value.is_none() && self.failure.is_none() {
            self.failure = Some(failure);
            Ok(())
        } else {
            Err(SettleError::AlreadySettled)
        }
    }
}

/// A borrowed look at the value of a promise: `None` until it has settled.
pub struct PromiseValue<'a, T> {
    internal_ref: &'a PromiseInternal<T>,
}

impl<'a, T> PromiseValue<'a, T> {
    /// The value that is seen: that of the promise at the time of the look.
    pub closed spec fn view(&self) -> Option<T> {
        self.internal_ref.value
    }
}

impl<'a, T> std::ops::Deref for PromiseValue<'a, T> {
    type Target = Option<T>;

    fn deref(&self) -> (value: &Option<T>)
        ensures
            *value == self@,
    {
        &self.internal_ref.value
    }
}

impl<T, F: Fn(&T) -> T, J: Fn(Vec<&T>) -> T> PromiseGraph<T, F, J> {
    /// A graph without promises.
    pub fn new() -> (graph: PromiseGraph<T, F, J>)
        ensures
            graph.wf(),
            graph.cells().len() == 0,
    {
        PromiseGraph { cells: Vec::new(), sources: Vec::new() }
    }

    /// The number of promises.
    pub fn len(&self) -> (n: usize)
        ensures
            n == self.cells().len(),
    {
        self.cells.len()
    }

    /// Adds the promise of `transform` applied to the value of `parent`.
    ///
    /// Where `parent` has settled already, the new promise is settled
    /// before the call returns: with the transformed value, or with the
    /// failure of `parent`. Otherwise it registers as the youngest
    /// continuation of `parent` and settles when `parent` does.
    pub fn chain(&mut self, parent: Promise, transform: F) -> (child: Promise)
        requires
            old(self).wf(),
            old(self).contains(parent),
            total_transform::<T, F>(transform),
        ensures
            final(self).wf(),
            final(self).extends(old(self)),
            child.index == old(self).cells().len(),
            final(self).cells().len() == old(self).cells().len() + 1,
            final(self).sources() == old(self).sources().push(
                Source::Then { parent: parent.index, transform },
            ),
            forall|s: int|
                0 <= s < old(self).cells().len() && s != parent.index ==> (
                #[trigger] final(self).cells()[s]) == old(self).cells()[s],
            final(self).cells()[parent.index as int].value == old(self).cells()[parent.index as int].value,
            final(self).cells()[parent.index as int].failure == old(self).cells()[parent.index as int].failure,
            final(self).cells()[parent.index as int].links@ == old(self).cells()[parent.index as int].links@.push(
                child.index,
            ),
            final(self).cells()[child.index as int].links@ == Seq::<usize>::empty(),
            old(self).pending(parent.index as int) ==> final(self).pending(child.index as int),
            old(self).settled(parent.index as int) ==> final(self).settled(child.index as int)
                && transformed(
                transform,
                old(self).cells()[parent.index as int].value.unwrap(),
                final(self).cells()[child.index as int].value.unwrap(),
            ),
            old(self).failed(parent.index as int) ==> final(self).cells()[child.index as int].failure
                == old(self).cells()[parent.index as int].failure,
    {
        let index = self.cells.len();
        let mut cell = PromiseInternal::new();
        proof {
            assert(old(self).cells()[parent.index as int].wf());
        }
        match &self.cells[parent.index].value {
            Some(value) => {
                cell.value = Some(transform(value));
            },
            None => {
                cell.failure = self.cells[parent.index].failure;
            },
        }
        self.cells.push(cell);
        self.cells[parent.index].links.push(index);
        self.sources.push(Source::Then { parent: parent.index, transform });
        proof {
            assert(self.sources().subrange(0, index as int) =~= old(self).sources());
            assert(self.depends_on(index as int, parent.index as int));
            self.lemma_extended(old(self), index);
        }
        Promise { index }
    }

    /// Whether the handle names a promise of this graph.
    pub fn holds(&self, p: Promise) -> (found: bool)
        ensures
            found == self.contains(p),
    {
        p.index < self.cells.len()
    }
}

impl Promise {
    /// Adds a pending root promise to the graph.
    pub fn new<T, F: Fn(&T) -> T, J: Fn(Vec<&T>) -> T>(graph: &mut PromiseGraph<T, F, J>) -> (p:
        Promise)
        requires
            old(graph).wf(),
        ensures
            final(graph).wf(),
            final(graph).extends(old(graph)),
            p.index == old(graph).cells().len(),
            final(graph).cells().len() == old(graph).cells().len() + 1,
            final(graph).cells().subrange(0, p.index as int) == old(graph).cells(),
            final(graph).sources() == old(graph).sources().push(Source::Root),
            final(graph).pending(p.index as int),
            final(graph).cells()[p.index as int].links@ == Seq::<usize>::empty(),
    {
        let index = graph.cells.len();
        graph.cells.push(PromiseInternal::new());
        graph.sources.push(Source::Root);
        proof {
            graph.lemma_extended(old(graph), index);
        }
        Promise { index }
    }

    /// Adds the promise of `transform` applied to the value of this promise.
    ///
    /// Where this promise has settled already, the new promise is settled
    /// before the call returns: with the transformed value, or with the
    /// failure of this promise. Otherwise it registers as the youngest
    /// continuation of this promise and settles when this promise does.
    pub fn then<T, F: Fn(&T) -> T, J: Fn(Vec<&T>) -> T>(
        &self,
        graph: &mut PromiseGraph<T, F, J>,
        transform: F,
    ) -> (child: Promise)
        requires
            old(graph).wf(),
            old(graph).contains(*self),
            total_transform::<T, F>(transform),
        ensures
            final(graph).wf(),
            final(graph).extends(old(graph)),
            child.index == old(graph).cells().len(),
            final(graph).cells().len() == old(graph).cells().len() + 1,
            final(graph).sources() == old(graph).sources().push(
                Source::Then { parent: self.index, transform },
            ),
            forall|s: int|
                0 <= s < old(graph).cells().len() && s != self.index ==> (
                #[trigger] final(graph).cells()[s]) == old(graph).cells()[s],
            final(graph).cells()[self.index as int].value == old(graph).cells()[self.index as int].value,
            final(graph).cells()[self.index as int].failure == old(graph).cells()[self.index as int].failure,
            final(graph).cells()[self.index as int].links@ == old(graph).cells()[self.index as int].links@.push(
                child.index,
            ),
            final(graph).cells()[child.index as int].links@ == Seq::<usize>::empty(),
            old(graph).pending(self.index as int) ==> final(graph).pending(child.index as int),
            old(graph).settled(self.index as int) ==> final(graph).settled(child.index as int)
                && transformed(
                transform,
                old(graph).cells()[self.index as int].value.unwrap(),
                final(graph).cells()[child.index as int].value.unwrap(),
            ),
            old(graph).failed(self.index as int) ==> final(graph).cells()[child.index as int].failure
                == old(graph).cells()[self.index as int].failure,
    {
        graph.chain(*self, transform)
    }

    /// Settles the promise with `value`, and with it every promise that
    /// this decides: first the promise itself, then the younger promises
    /// that depend on it, directly or not, from the oldest to the youngest.
    /// Returns the promises that it settled, in that order.
    ///
    /// Only a pending root can be settled. Any other promise is refused, and
    /// the graph stays as it is.
    pub fn resolve<T, F: Fn(&T) -> T, J: Fn(Vec<&T>) -> T>(
        &self,
        graph: &mut PromiseGraph<T, F, J>,
        value: T,
    ) -> (outcome: Result<Vec<Promise>, SettleError>)
        requires
            old(graph).wf(),
            old(graph).contains(*self),
        ensures
            final(graph).wf(),
            final(graph).sources() == old(graph).sources(),
            final(graph).cells().len() == old(graph).cells().len(),
            forall|d: int|
                0 <= d < old(graph).cells().len() ==> (#[trigger] final(graph).cells()[d]).links
                    == old(graph).cells()[d].links,
            outcome.is_ok() <==> old(graph).sources()[self.index as int] is Root && old(graph).pending(
                self.index as int,
            ),
            outcome == Err::<Vec<Promise>, SettleError>(SettleError::Derived) <==> !(old(graph).sources()[self.index as int] is Root),
            outcome.is_err() ==> final(graph).cells() == old(graph).cells(),
            outcome.is_ok() ==> final(graph).resolved_from(old(graph), *self, value),
            outcome.is_ok() ==> final(graph).lists_settled(old(graph), outcome.unwrap()@)
                && outcome.unwrap()@[0] == *self,
            outcome.is_ok() ==> final(graph).cells()[self.index as int].value == Some(value),
            outcome.is_ok() ==> forall|d: int|
                0 <= d < old(graph).cells().len() && d != self.index && (d < self.index || old(graph).sources()[d] is Root || !old(graph).pending(d)) ==> (
                #[trigger] final(graph).cells()[d]) == old(graph).cells()[d],
            outcome.is_ok() ==> forall|d: int|
                0 <= d < old(graph).cells().len() && old(graph).pending(d) ==> !(
                #[trigger] final(graph).failed(d)),
    {
        let p = self.index;
        match &graph.sources[p] {
            Source::Root => {},
            _ => {
                return Err(SettleError::Derived);
            },
        }
        let ghost before = *graph;
        match graph.cells[p].resolve(value) {
            Err(error) => {
                proof {
                    assert(graph.cells() =~= before.cells());
                    graph.lemma_same_wf(&before);
                }
                Err(error)
            },
            Ok(()) => {
                let settled = graph.propagate(p, Ghost(before));
                Ok(settled)
            },
        }
    }

    /// Settles the promise with a failure, and with the same failure every
    /// pending promise that depends on it, directly or not. Returns the
    /// promises that it settled, from the oldest to the youngest.
    ///
    /// Only a pending root can be rejected. Any other promise is refused,
    /// and the graph stays as it is.
    pub fn reject<T, F: Fn(&T) -> T, J: Fn(Vec<&T>) -> T>(
        &self,
        graph: &mut PromiseGraph<T, F, J>,
        code: u64,
    ) -> (outcome: Result<Vec<Promise>, SettleError>)
        requires
            old(graph).wf(),
            old(graph).contains(*self),
        ensures
            final(graph).wf(),
            final(graph).sources() == old(graph).sources(),
            final(graph).cells().len() == old(graph).cells().len(),
            forall|d: int|
                0 <= d < old(graph).cells().len() ==> (#[trigger] final(graph).cells()[d]).links
                    == old(graph).cells()[d].links,
            outcome.is_ok() <==> old(graph).sources()[self.index as int] is Root && old(graph).pending(
                self.index as int,
            ),
            outcome == Err::<Vec<Promise>, SettleError>(SettleError::Derived) <==> !(old(graph).sources()[self.index as int] is Root),
            outcome.is_err() ==> final(graph).cells() == old(graph).cells(),
            outcome.is_ok() ==> final(graph).rejected_from(
                old(graph),
                *self,
                Failure { origin: self.index, code },
            ),
            outcome.is_ok() ==> final(graph).lists_settled(old(graph), outcome.unwrap()@)
                && outcome.unwrap()@[0] == *self,
            outcome.is_ok() ==> final(graph).cells()[self.index as int].failure == Some(
                Failure { origin: self.index, code },
            ),
            outcome.is_ok() ==> forall|d: int|
                0 <= d < old(graph).cells().len() && d != self.index && (d < self.index || old(graph).sources()[d] is Root || !old(graph).pending(d)) ==> (
                #[trigger] final(graph).cells()[d]) == old(graph).cells()[d],
            outcome.is_ok() ==> forall|d: int|
                0 <= d < old(graph).cells().len() && old(graph).pending(d) && #[trigger] final(graph).failed(d) ==> final(graph).cells()[d].failure == Some(
                    Failure { origin: self.index, code },
                ),
    {
        let p = self.index;
        match &graph.sources[p] {
            Source::Root => {},
            _ => {
                return Err(SettleError::Derived);
            },
        }
        let ghost before = *graph;
        match graph.cells[p].reject(Failure { origin: p, code }) {
            Err(error) => {
                proof {
                    assert(graph.cells() =~= before.cells());
                    graph.lemma_same_wf(&before);
                }
                Err(error)
            },
            Ok(()) => {
                let settled = graph.propagate(p, Ghost(before));
                Ok(settled)
            },
        }
    }

    /// Adds a root promise that is settled with `value` from the start.
    pub fn resolved<T, F: Fn(&T) -> T, J: Fn(Vec<&T>) -> T>(
        graph: &mut PromiseGraph<T, F, J>,
        value: T,
    ) -> (p: Promise)
        requires
            old(graph).wf(),
        ensures
            final(graph).wf(),
            final(graph).extends(old(graph)),
            p.index == old(graph).cells().len(),
            final(graph).cells().len() == old(graph).cells().len() + 1,
            final(graph).cells().subrange(0, p.index as int) == old(graph).cells(),
            final(graph).sources() == old(graph).sources().push(Source::Root),
            final(graph).cells()[p.index as int].value == Some(value),
            final(graph).cells()[p.index as int].failure.is_none(),
            final(graph).cells()[p.index as int].links@ == Seq::<usize>::empty(),
    {
        let index = graph.cells.len();
        graph.cells.push(PromiseInternal { value: Some(value), failure: None, links: Vec::new() });
        graph.sources.push(Source::Root);
        proof {
            graph.lemma_extended(old(graph), index);
        }
        Promise { index }
    }

    /// Adds the promise of the values of `inputs`, in that order, put
    /// together by `assemble`.
    ///
    /// The new promise fails as soon as one input has failed, with the
    /// failure of a failed input; it holds the assembled value as soon as
    /// every input holds a value; and it is pending until then. Where the
    /// inputs decide it already, it is settled before the call returns.
    pub fn join<T, F: Fn(&T) -> T, J: Fn(Vec<&T>) -> T>(
        graph: &mut PromiseGraph<T, F, J>,
        inputs: &Vec<Promise>,
        assemble: J,
    ) -> (joined: Promise)
        requires
            old(graph).wf(),
            forall|i: int| 0 <= i < inputs@.len() ==> old(graph).contains(#[trigger] inputs@[i]),
            total_assemble::<T, J>(assemble),
        ensures
            final(graph).wf(),
            final(graph).extends(old(graph)),
            joined.index == old(graph).cells().len(),
            final(graph).cells().len() == old(graph).cells().len() + 1,
            final(graph).sources().subrange(0, joined.index as int) == old(graph).sources(),
            final(graph).sources()[joined.index as int] is Join,
            final(graph).sources()[joined.index as int]->inputs@ == indices_of(inputs@),
            final(graph).sources()[joined.index as int]->assemble == assemble,
            forall|s: int|
                0 <= s < old(graph).cells().len() ==> (#[trigger] final(graph).cells()[s]).value
                    == old(graph).cells()[s].value && final(graph).cells()[s].failure == old(graph).cells()[s].failure,
            forall|s: int|
                0 <= s < old(graph).cells().len() ==> (#[trigger] final(graph).cells()[s]).links@ == (
                if final(graph).depends_on(joined.index as int, s) {
                    old(graph).cells()[s].links@.push(joined.index)
                } else {
                    old(graph).cells()[s].links@
                }),
            final(graph).cells()[joined.index as int].links@ == Seq::<usize>::empty(),
    {
        let index = graph.cells.len();
        let mut indices: Vec<usize> = Vec::new();
        let mut i: usize = 0;
        while i < inputs.len()
            invariant
                i <= inputs@.len(),
                indices@.len() == i,
                forall|j: int| 0 <= j < i ==> #[trigger] indices@[j] == inputs@[j].index,
            decreases inputs@.len() - i,
        {
            indices.push(inputs[i].index);
            i += 1;
        }
        proof {
            assert(indices@ =~= indices_of(inputs@));
        }
        graph.sources.push(Source::Join { inputs: indices, assemble });
        let ghost mid = *graph;
        proof {
            assert forall|s: int| 0 <= s < index implies (#[trigger] graph.cells()[s]).wf() by {
                assert(old(graph).cells()[s].wf());
            }
        }
        let held = graph.evaluate(index);
        graph.cells.push(PromiseInternal { value: held.0, failure: held.1, links: Vec::new() });
        let ghost full = *graph;
        let mut i: usize = 0;
        while i < inputs.len()
            invariant
                i <= inputs@.len(),
                old(graph).structure_wf(),
                index == old(graph).cells().len(),
                graph.sources() == full.sources(),
                graph.cells().len() == index + 1,
                graph.cells()[index as int] == full.cells()[index as int],
                forall|j: int| 0 <= j < inputs@.len() ==> (#[trigger] inputs@[j]).index < index,
                forall|s: int|
                    0 <= s < index ==> (#[trigger] graph.cells()[s]).value == old(graph).cells()[s].value
                        && graph.cells()[s].failure == old(graph).cells()[s].failure,
                forall|s: int|
                    0 <= s < index ==> (#[trigger] graph.cells()[s]).links@ == (if exists|j: int|
                        0 <= j < i && (#[trigger] inputs@[j]).index == s {
                        old(graph).cells()[s].links@.push(index)
                    } else {
                        old(graph).cells()[s].links@
                    }),
            decreases inputs@.len() - i,
        {
            let s = inputs[i].index;
            let count = graph.cells[s].links.len();
            proof {
                assert(old(graph).links_wf(s as int));
            }
            if count == 0 || graph.cells[s].links[count - 1] != index {
                proof {
                    if exists|j: int| 0 <= j < i && (#[trigger] inputs@[j]).index == s {
                        assert(graph.cells()[s as int].links@[count - 1] == index);
                    }
                }
                graph.cells[s].links.push(index);
            } else {
                proof {
                    if !(exists|j: int| 0 <= j < i && (#[trigger] inputs@[j]).index == s) {
                        assert(old(graph).cells()[s as int].links@[count - 1] < index);
                    }
                }
            }
            proof {
                assert forall|t: int| 0 <= t < index implies (#[trigger] graph.cells()[t]).links@ == (
                if exists|j: int| 0 <= j < i + 1 && (#[trigger] inputs@[j]).index == t {
                    old(graph).cells()[t].links@.push(index)
                } else {
                    old(graph).cells()[t].links@
                }) by {
                    if t == s {
                        assert(inputs@[i as int].index == t);
                    } else {
                        if exists|j: int| 0 <= j < i + 1 && (#[trigger] inputs@[j]).index == t {
                            let j = choose|j: int| 0 <= j < i + 1 && (#[trigger] inputs@[j]).index == t;
                            assert(j < i);
                        }
                    }
                }
            }
            i += 1;
        }
        proof {
            assert(graph.sources().subrange(0, index as int) =~= old(graph).sources());
            assert forall|s: int| 0 <= s < index implies graph.depends_on(index as int, s) == (
            exists|j: int| 0 <= j < inputs@.len() && (#[trigger] inputs@[j]).index == s) by {
                let all = indices_of(inputs@);
                if graph.depends_on(index as int, s) {
                    let j = choose|j: int| 0 <= j < all.len() && #[trigger] all[j] == s;
                    assert(inputs@[j].index == s);
                }
                if exists|j: int| 0 <= j < inputs@.len() && (#[trigger] inputs@[j]).index == s {
                    let j = choose|j: int| 0 <= j < inputs@.len() && (#[trigger] inputs@[j]).index == s;
                    assert(all[j] == s);
                }
            }
            assert(mid.source_wf(index as int));
            graph.lemma_fits_kept(&mid, index as int, held.0, held.1);
            graph.lemma_extended(old(graph), index);
        }
        Promise { index }
    }

    /// The value of the promise, if it has settled with one.
    pub fn value<'a, T, F: Fn(&T) -> T, J: Fn(Vec<&T>) -> T>(
        &self,
        graph: &'a PromiseGraph<T, F, J>,
    ) -> (seen: PromiseValue<'a, T>)
        requires
            graph.contains(*self),
        ensures
            seen@ == graph.cells()[self.index as int].value,
    {
        PromiseValue { internal_ref: &graph.cells[self.index] }
    }

    /// The value of the promise, if it has settled with one, borrowed for
    /// as long as the graph is. This never waits.
    pub fn peek<'a, T, F: Fn(&T) -> T, J: Fn(Vec<&T>) -> T>(
        &self,
        graph: &'a PromiseGraph<T, F, J>,
    ) -> (seen: Option<&'a T>)
        requires
            graph.contains(*self),
        ensures
            seen.is_some() == graph.cells()[self.index as int].value.is_some(),
            seen.is_some() ==> *seen.unwrap() == graph.cells()[self.index as int].value.unwrap(),
    {
        graph.cells[self.index].value.as_ref()
    }

    /// The failure of the promise, if it has settled with one.
    pub fn failure<T, F: Fn(&T) -> T, J: Fn(Vec<&T>) -> T>(
        &self,
        graph: &PromiseGraph<T, F, J>,
    ) -> (seen: Option<Failure>)
        requires
            graph.contains(*self),
        ensures
            seen == graph.cells()[self.index as int].failure,
    {
        graph.cells[self.index].failure
    }

    /// Whether the promise has neither a value nor a failure yet.
    pub fn is_pending<T, F: Fn(&T) -> T, J: Fn(Vec<&T>) -> T>(
        &self,
        graph: &PromiseGraph<T, F, J>,
    ) -> (pending: bool)
        requires
            graph.contains(*self),
        ensures
            pending == graph.pending(self.index as int),
    {
        graph.cells[self.index].value.is_none() && graph.cells[self.index].failure.is_none()
    }
}

impl<T, F: Fn(&T) -> T, J: Fn(Vec<&T>) -> T> PromiseGraph<T, F, J> {
    /// Works out what promise `k` holds by its source, from the states of
    /// the promises it depends on: a value, a failure, or neither yet.
    fn evaluate(&self, k: usize) -> (held: (Option<T>, Option<Failure>))
        requires
            k < self.sources().len(),
            k <= self.cells().len(),
            self.source_wf(k as int),
            forall|s: int| 0 <= s < k ==> (#[trigger] self.cells()[s]).wf(),
        ensures
            self.fits(k as int, held.0, held.1),
            !(held.0.is_some() && held.1.is_some()),
            self.sources()[k as int] is Root ==> held.0.is_none() && held.1.is_none(),
    {
        match &self.sources[k] {
            Source::Root => (None, None),
            Source::Then { parent, transform } => {
                assert(self.cells()[*parent as int].wf());
                match &self.cells[*parent].value {
                    Some(value) => (Some(transform(value)), None),
                    None => (None, self.cells[*parent].failure),
                }
            },
            Source::Join { inputs, assemble } => {
                let mut args: Vec<&T> = Vec::new();
                let mut missing = false;
                let mut i: usize = 0;
                while i < inputs.len()
                    invariant
                        i <= inputs@.len(),
                        k < self.sources().len(),
                        k <= self.cells().len(),
                        self.sources()[k as int] is Join,
                        self.sources()[k as int]->inputs == *inputs,
                        forall|j: int| 0 <= j < inputs@.len() ==> #[trigger] inputs@[j] < k,
                        forall|s: int| 0 <= s < k ==> (#[trigger] self.cells()[s]).wf(),
                        forall|j: int| 0 <= j < i ==> !self.failed(#[trigger] inputs@[j] as int),
                        !missing ==> args@.len() == i && forall|j: int|
                            0 <= j < i ==> self.settled(#[trigger] inputs@[j] as int) && *args@[j]
                                == self.cells()[inputs@[j] as int].value.unwrap(),
                        missing ==> exists|j: int|
                            0 <= j < i && !self.settled(#[trigger] inputs@[j] as int),
                    decreases inputs@.len() - i,
                {
                    let cell = &self.cells[inputs[i]];
                    if cell.failure.is_some() {
                        proof {
                            assert(self.failed(inputs@[i as int] as int));
                        }
                        return (None, cell.failure);
                    }
                    match &cell.value {
                        Some(value) => {
                            if !missing {
                                args.push(value);
                            }
                        },
                        None => {
                            missing = true;
                        },
                    }
                    i += 1;
                }
                if missing {
                    (None, None)
                } else {
                    proof {
                        assert(refers_to(args, self.values_of(inputs@)));
                    }
                    (Some(assemble(args)), None)
                }
            },
        }
    }

    /// The larger of `limit` and the youngest continuation of promise `s`:
    /// no promise younger than that depends on `s`.
    fn reach(&self, s: usize, limit: usize) -> (bound: usize)
        requires
            s < self.cells().len(),
            self.links_wf(s as int),
        ensures
            bound >= limit,
            forall|d: int|
                0 <= d < self.cells().len() && #[trigger] self.depends_on(d, s as int) ==> d <= bound,
    {
        let n = self.cells.len();
        let count = self.cells[s].links.len();
        let bound = if count > 0 && self.cells[s].links[count - 1] > limit {
            self.cells[s].links[count - 1]
        } else {
            limit
        };
        proof {
            let links = self.cells()[s as int].links@;
            assert forall|d: int|
                0 <= d < self.cells().len() && #[trigger] self.depends_on(d, s as int) implies d
                <= bound by {
                assert(d < n);
                assert(links.contains(d as usize));
                let at = choose|at: int| 0 <= at < links.len() && links[at] == d as usize;
                if at < count - 1 {
                    assert(links[at] < links[count - 1]);
                }
            }
        }
        bound
    }

    /// Brings the promises younger than root `p` up to date after `p` has
    /// been settled: in the order of their age, each pending promise whose
    /// sources now decide it is settled. `before` is the graph as it was
    /// when `p` was still pending.
    fn propagate(&mut self, p: usize, Ghost(before): Ghost<Self>) -> (fired: Vec<Promise>)
        requires
            before.wf(),
            old(self).sources() == before.sources(),
            old(self).cells().len() == before.cells().len(),
            p < before.cells().len(),
            before.sources()[p as int] is Root,
            before.pending(p as int),
            !old(self).pending(p as int),
            old(self).cells()[p as int].wf(),
            old(self).cells()[p as int].links == before.cells()[p as int].links,
            forall|d: int|
                0 <= d < before.cells().len() && d != p ==> (#[trigger] old(self).cells()[d])
                    == before.cells()[d],
        ensures
            final(self).wf(),
            final(self).sources() == before.sources(),
            final(self).cells().len() == before.cells().len(),
            final(self).cells()[p as int] == old(self).cells()[p as int],
            forall|d: int|
                0 <= d < before.cells().len() ==> (#[trigger] final(self).cells()[d]).links
                    == before.cells()[d].links,
            forall|d: int|
                0 <= d < before.cells().len() && d != p && (d < p || before.sources()[d] is Root
                    || !before.pending(d)) ==> (#[trigger] final(self).cells()[d])
                    == before.cells()[d],
            forall|d: int|
                0 <= d < before.cells().len() && before.pending(d) && #[trigger] final(self).failed(
                    d,
                ) ==> final(self).cells()[d].failure == old(self).cells()[p as int].failure,
            final(self).lists_settled(&before, fired@),
            fired@.len() > 0,
            fired@[0].index == p,
    {
        let n = self.cells.len();
        let mut fired: Vec<Promise> = Vec::new();
        fired.push(Promise { index: p });
        proof {
            assert(before.links_wf(p as int));
            self.lemma_links_kept(&before, p as int);
        }
        let mut limit = self.reach(p, p);
        let mut k = p + 1;
        proof {
            assert forall|d: int| 0 <= d < k implies #[trigger] self.consistent(d) by {
                if d < p {
                    assert(before.consistent(d));
                    assert(before.source_wf(d));
                    self.lemma_consistent_kept(&before, d);
                }
            }
            assert forall|s: int, d: int|
                0 <= s < n && 0 <= d < n && self.changed(&before, s)
                    && #[trigger] before.depends_on(d, s) implies d <= limit by {
                assert(s == p);
                assert(self.depends_on(d, p as int));
            }
            assert forall|d: int|
                0 <= d < k && #[trigger] before.pending(d) && !self.pending(d) implies exists|i: int|
                0 <= i < fired@.len() && (#[trigger] fired@[i]).index == d by {
                assert(d == p);
                assert(fired@[0].index == p);
            }
        }
        while k < n && k <= limit
            invariant
                before.wf(),
                p < k <= n,
                fired@.len() > 0,
                fired@[0].index == p,
                forall|i: int, j: int|
                    0 <= i < j < fired@.len() ==> (#[trigger] fired@[i]).index < (
                    #[trigger] fired@[j]).index,
                forall|i: int|
                    0 <= i < fired@.len() ==> (#[trigger] fired@[i]).index < k && before.pending(
                        fired@[i].index as int,
                    ) && !self.pending(fired@[i].index as int),
                forall|d: int|
                    0 <= d < k && #[trigger] before.pending(d) && !self.pending(d) ==> exists|i: int|
                        0 <= i < fired@.len() && (#[trigger] fired@[i]).index == d,
                n == before.cells().len(),
                n == self.cells().len(),
                self.sources() == before.sources(),
                before.sources()[p as int] is Root,
                before.pending(p as int),
                self.cells()[p as int] == old(self).cells()[p as int],
                !self.pending(p as int),
                forall|d: int| 0 <= d < n ==> (#[trigger] self.cells()[d]).wf(),
                forall|d: int|
                    0 <= d < n ==> (#[trigger] self.cells()[d]).links == before.cells()[d].links,
                forall|d: int| 0 <= d < k ==> #[trigger] self.consistent(d),
                forall|d: int| k <= d < n ==> (#[trigger] self.cells()[d]) == before.cells()[d],
                forall|d: int|
                    0 <= d < n && d != p && (d < p || before.sources()[d] is Root
                        || !before.pending(d)) ==> (#[trigger] self.cells()[d])
                        == before.cells()[d],
                forall|d: int|
                    0 <= d < n && before.pending(d) && #[trigger] self.failed(d)
                        ==> self.cells()[d].failure == self.cells()[p as int].failure,
                forall|s: int, d: int|
                    0 <= s < n && 0 <= d < n && self.changed(&before, s)
                        && #[trigger] before.depends_on(d, s) ==> d <= limit,
            decreases n - k,
        {
            if self.cells[k].value.is_none() && self.cells[k].failure.is_none() {
                let ghost mid = *self;
                proof {
                    assert(before.source_wf(k as int));
                }
                let held = self.evaluate(k);
                if held.0.is_some() || held.1.is_some() {
                    let ghost listed = fired@;
                    self.cells[k].value = held.0;
                    self.cells[k].failure = held.1;
                    fired.push(Promise { index: k });
                    proof {
                        assert(before.links_wf(k as int));
                        self.lemma_links_kept(&before, k as int);
                    }
                    limit = self.reach(k, limit);
                    proof {
                        self.lemma_fits_kept(&mid, k as int, held.0, held.1);
                        assert forall|i: int| 0 <= i < fired@.len() implies (#[trigger] fired@[i]).index
                            < k + 1 && before.pending(fired@[i].index as int) && !self.pending(
                            fired@[i].index as int,
                        ) by {
                            if i < listed.len() {
                                assert(fired@[i] == listed[i]);
                                assert(self.cells()[fired@[i].index as int] == mid.cells()[fired@[i].index as int]);
                            }
                        }
                        assert forall|i: int, j: int| 0 <= i < j < fired@.len() implies (
                        #[trigger] fired@[i]).index < (#[trigger] fired@[j]).index by {
                            assert(fired@[i] == listed[i]);
                            if j < listed.len() {
                                assert(fired@[j] == listed[j]);
                            }
                        }
                        assert forall|d: int|
                            0 <= d < k + 1 && #[trigger] before.pending(d) && !self.pending(
                                d,
                            ) implies exists|i: int|
                            0 <= i < fired@.len() && (#[trigger] fired@[i]).index == d by {
                            if d == k {
                                assert(fired@[listed.len() as int].index == k);
                            } else {
                                assert(self.cells()[d] == mid.cells()[d]);
                                let i = choose|i: int|
                                    0 <= i < listed.len() && (#[trigger] listed[i]).index == d;
                                assert(fired@[i] == listed[i]);
                            }
                        }
                        assert forall|d: int| 0 <= d < k implies #[trigger] self.consistent(d) by {
                            assert(mid.consistent(d));
                            assert(before.source_wf(d));
                            self.lemma_consistent_kept(&mid, d);
                        }
                        assert forall|d: int|
                            0 <= d < n && before.pending(d) && #[trigger] self.failed(
                                d,
                            ) implies self.cells()[d].failure == self.cells()[p as int].failure by {
                            if d == k {
                                mid.lemma_failure_is_new(&before, p as int, k as int, held.1);
                            } else {
                                assert(self.cells()[d] == mid.cells()[d]);
                                assert(mid.failed(d));
                            }
                        }
                        assert forall|s: int, d: int|
                            0 <= s < n && 0 <= d < n && self.changed(&before, s)
                                && #[trigger] before.depends_on(d, s) implies d <= limit by {
                            if s == k {
                                assert(self.depends_on(d, k as int));
                            } else {
                                assert(self.cells()[s] == mid.cells()[s]);
                                assert(mid.changed(&before, s));
                            }
                        }
                    }
                }
            } else {
                proof {
                    self.lemma_settled_consistent(&before, p as int, k as int);
                }
            }
            k += 1;
        }
        proof {
            assert forall|d: int| 0 <= d < n implies #[trigger] self.consistent(d) by {
                if d >= k {
                    assert(before.consistent(d));
                    assert(before.source_wf(d));
                    assert forall|s: int| 0 <= s < d && before.depends_on(d, s) implies self.cells()[s].value
                        == before.cells()[s].value && self.cells()[s].failure
                        == before.cells()[s].failure by {
                        if self.changed(&before, s) {
                            assert(d <= limit);
                        }
                    }
                    self.lemma_consistent_kept(&before, d);
                }
            }
            self.lemma_structure_kept(&before);
        }
        fired
    }

    /// Promise `s` holds another value or failure than in `before`.
    pub open spec fn changed(&self, before: &Self, s: int) -> bool {
        self.cells()[s].value != before.cells()[s].value || self.cells()[s].failure
            != before.cells()[s].failure
    }

    /// The continuations of promise `s` are as sound as in `before`, when the
    /// sources and the continuations of `s` are the same in both.
    proof fn lemma_links_kept(&self, before: &Self, s: int)
        requires
            0 <= s < before.cells().len(),
            before.links_wf(s),
            self.sources() == before.sources(),
            self.cells().len() == before.cells().len(),
            self.cells()[s].links == before.cells()[s].links,
        ensures
            self.links_wf(s),
    {
        assert forall|d: int| self.depends_on(d, s) == before.depends_on(d, s) by {}
    }

    /// The shape of the graph is as sound as in `before`, when the sources
    /// and all continuations are the same in both.
    proof fn lemma_structure_kept(&self, before: &Self)
        requires
            before.structure_wf(),
            self.sources() == before.sources(),
            self.cells().len() == before.cells().len(),
            forall|d: int| 0 <= d < self.cells().len() ==> (#[trigger] self.cells()[d]).wf(),
            forall|d: int|
                0 <= d < self.cells().len() ==> (#[trigger] self.cells()[d]).links
                    == before.cells()[d].links,
        ensures
            self.structure_wf(),
    {
        assert forall|d: int| 0 <= d < self.cells().len() implies #[trigger] self.source_wf(d) by {
            assert(before.source_wf(d));
        }
        assert forall|s: int| 0 <= s < self.cells().len() implies #[trigger] self.links_wf(s) by {
            assert(before.links_wf(s));
            self.lemma_links_kept(before, s);
        }
    }

    /// A graph with the states and sources of a sound graph is sound.
    proof fn lemma_same_wf(&self, before: &Self)
        requires
            before.wf(),
            self.sources() == before.sources(),
            self.cells() == before.cells(),
        ensures
            self.wf(),
    {
        self.lemma_structure_kept(before);
        assert forall|d: int| 0 <= d < self.cells().len() implies #[trigger] self.consistent(d) by {
            assert(before.consistent(d));
            assert(before.source_wf(d));
            self.lemma_consistent_kept(before, d);
        }
    }

    /// A promise that had settled in `before` is still consistent, when
    /// nothing that had settled in `before` holds anything else now.
    proof fn lemma_settled_consistent(&self, before: &Self, p: int, k: int)
        requires
            before.wf(),
            0 <= k < before.cells().len(),
            self.sources() == before.sources(),
            self.cells().len() == before.cells().len(),
            !before.pending(k),
            self.cells()[k] == before.cells()[k],
            forall|d: int|
                0 <= d < before.cells().len() && !before.pending(d) ==> (
                #[trigger] self.cells()[d]) == before.cells()[d],
        ensures
            self.consistent(k),
    {
        assert(before.consistent(k));
        assert(before.source_wf(k));
        assert(before.cells()[k].wf());
        match before.sources()[k] {
            Source::Root => {},
            Source::Then { parent, transform } => {
                assert(!before.pending(parent as int));
            },
            Source::Join { inputs, assemble } => {
                if exists|i: int| 0 <= i < inputs@.len() && before.failed(#[trigger] inputs@[i] as int) {
                    let i0 = choose|i: int|
                        0 <= i < inputs@.len() && before.failed(#[trigger] inputs@[i] as int);
                    assert(self.failed(inputs@[i0] as int));
                    let i1 = choose|i: int|
                        0 <= i < inputs@.len() && before.cells()[#[trigger] inputs@[i] as int].failure
                            == before.cells()[k].failure;
                    assert(!before.pending(inputs@[i1] as int));
                    assert(self.cells()[inputs@[i1] as int].failure == self.cells()[k].failure);
                } else {
                    assert forall|i: int| 0 <= i < inputs@.len() implies self.settled(
                        #[trigger] inputs@[i] as int,
                    ) && !self.failed(inputs@[i] as int) && self.cells()[inputs@[i] as int]
                        == before.cells()[inputs@[i] as int] by {
                        assert(before.settled(inputs@[i] as int));
                        assert(before.cells()[inputs@[i] as int].wf());
                    }
                    assert(self.values_of(inputs@) =~= before.values_of(inputs@));
                }
            },
        }
    }

    /// A failure that fits promise `k`, which was pending in `before`, comes
    /// from a promise that was pending in `before` too: it is the failure
    /// of root `p`, as every failure is that came up since.
    proof fn lemma_failure_is_new(&self, before: &Self, p: int, k: int, failure: Option<Failure>)
        requires
            before.wf(),
            0 <= p < before.cells().len(),
            0 <= k < before.cells().len(),
            self.sources() == before.sources(),
            self.cells().len() == before.cells().len(),
            before.pending(k),
            failure.is_some(),
            self.fits(k, None, failure),
            !(before.sources()[k] is Root),
            forall|d: int| 0 <= d < self.cells().len() ==> (#[trigger] self.cells()[d]).wf(),
            forall|d: int|
                0 <= d < before.cells().len() && !before.pending(d) ==> (
                #[trigger] self.cells()[d]) == before.cells()[d],
            forall|d: int|
                0 <= d < before.cells().len() && before.pending(d) && #[trigger] self.failed(d)
                    ==> self.cells()[d].failure == self.cells()[p].failure,
        ensures
            failure == self.cells()[p].failure,
    {
        assert(before.consistent(k));
        assert(before.source_wf(k));
        match before.sources()[k] {
            Source::Root => {},
            Source::Then { parent, transform } => {
                assert(self.cells()[parent as int].wf());
                assert(self.failed(parent as int));
                if !before.pending(parent as int) {
                    assert(before.failed(parent as int));
                }
            },
            Source::Join { inputs, assemble } => {
                if exists|i: int| 0 <= i < inputs@.len() && self.failed(#[trigger] inputs@[i] as int) {
                    let i1 = choose|i: int|
                        0 <= i < inputs@.len() && self.cells()[#[trigger] inputs@[i] as int].failure
                            == failure;
                    assert(self.failed(inputs@[i1] as int));
                    if !before.pending(inputs@[i1] as int) {
                        assert(before.failed(inputs@[i1] as int));
                    }
                }
            },
        }
    }

    /// What fits promise `d` in `before` fits it in `self`, when its source
    /// and the states of the promises it depends on are the same in both.
    proof fn lemma_fits_kept(&self, before: &Self, d: int, value: Option<T>, failure: Option<Failure>)
        requires
            0 <= d < before.sources().len(),
            0 <= d < self.sources().len(),
            before.source_wf(d),
            before.fits(d, value, failure),
            self.sources()[d] == before.sources()[d],
            forall|s: int|
                0 <= s < d && before.depends_on(d, s) ==> self.cells()[s].value
                    == before.cells()[s].value && self.cells()[s].failure
                    == before.cells()[s].failure,
        ensures
            self.fits(d, value, failure),
    {
        match before.sources()[d] {
            Source::Root => {},
            Source::Then { parent, transform } => {
                assert(before.depends_on(d, parent as int));
            },
            Source::Join { inputs, assemble } => {
                assert forall|i: int| 0 <= i < inputs@.len() implies self.cells()[#[trigger] inputs@[i] as int].value
                    == before.cells()[inputs@[i] as int].value && self.cells()[inputs@[i] as int].failure
                    == before.cells()[inputs@[i] as int].failure by {
                    assert(before.depends_on(d, inputs@[i] as int));
                }
                assert(self.values_of(inputs@) =~= before.values_of(inputs@));
            },
        }
    }

    /// A promise of `before` keeps its consistency in `self` when its own
    /// state, its source and the states of its sources are the same in both.
    proof fn lemma_consistent_kept(&self, before: &Self, d: int)
        requires
            0 <= d < before.cells().len() <= self.cells().len(),
            before.sources().len() == before.cells().len(),
            self.sources().len() == self.cells().len(),
            before.source_wf(d),
            before.consistent(d),
            self.sources()[d] == before.sources()[d],
            self.cells()[d].value == before.cells()[d].value,
            self.cells()[d].failure == before.cells()[d].failure,
            forall|s: int|
                0 <= s < d && before.depends_on(d, s) ==> self.cells()[s].value
                    == before.cells()[s].value && self.cells()[s].failure
                    == before.cells()[s].failure,
        ensures
            self.consistent(d),
    {
        self.lemma_fits_kept(before, d, before.cells()[d].value, before.cells()[d].failure);
    }

    /// Adding one promise `n` at the end, consistent and with sound source,
    /// whose sources list it as their youngest continuation, keeps the graph
    /// sound.
    proof fn lemma_extended(&self, before: &Self, n: usize)
        requires
            before.wf(),
            n == before.cells().len(),
            self.cells().len() == n + 1,
            self.sources().len() == n + 1,
            self.sources().subrange(0, n as int) =~= before.sources(),
            self.cells()[n as int].wf(),
            self.cells()[n as int].links@ =~= Seq::<usize>::empty(),
            self.source_wf(n as int),
            self.consistent(n as int),
            forall|s: int|
                0 <= s < n ==> (#[trigger] self.cells()[s]).value == before.cells()[s].value
                    && self.cells()[s].failure == before.cells()[s].failure,
            forall|s: int|
                0 <= s < n && !self.depends_on(n as int, s) ==> (#[trigger] self.cells()[s]).links@
                    =~= before.cells()[s].links@,
            forall|s: int|
                0 <= s < n && self.depends_on(n as int, s) ==> (#[trigger] self.cells()[s]).links@
                    =~= before.cells()[s].links@.push(n),
        ensures
            self.wf(),
    {
        assert forall|d: int| 0 <= d < n implies self.sources()[d] == before.sources()[d] by {
            assert(self.sources().subrange(0, n as int)[d] == self.sources()[d]);
        }
        assert forall|d: int| 0 <= d < self.cells().len() implies #[trigger] self.cells()[d].wf() by {
            if d < n {
                assert(before.cells()[d].wf());
            }
        }
        assert forall|d: int| 0 <= d < self.cells().len() implies #[trigger] self.source_wf(d) by {
            if d < n {
                assert(before.source_wf(d));
            }
        }
        assert forall|d: int| 0 <= d < self.cells().len() implies #[trigger] self.consistent(d) by {
            if d < n {
                assert(before.source_wf(d));
                assert(before.consistent(d));
                self.lemma_consistent_kept(before, d);
            }
        }
        assert forall|s: int| 0 <= s < self.cells().len() implies #[trigger] self.links_wf(s) by {
            if s < n {
                self.lemma_links_extended(before, n, s);
            } else {
                assert(self.source_wf(n as int));
                assert forall|d: int| 0 <= d < self.cells().len() implies !self.depends_on(d, s) by {
                    assert(self.source_wf(d));
                }
            }
        }
    }

    /// The continuations of an older promise `s` stay sound when promise `n`
    /// is added at the end and listed by exactly the promises it depends on.
    proof fn lemma_links_extended(&self, before: &Self, n: usize, s: int)
        requires
            0 <= s < n,
            n == before.cells().len(),
            before.sources().len() == n,
            before.links_wf(s),
            self.cells().len() == n + 1,
            self.sources().len() == n + 1,
            forall|d: int| 0 <= d < n ==> self.sources()[d] == before.sources()[d],
            self.depends_on(n as int, s) ==> self.cells()[s].links@ =~= before.cells()[s].links@.push(n),
            !self.depends_on(n as int, s) ==> self.cells()[s].links@ =~= before.cells()[s].links@,
        ensures
            self.links_wf(s),
    {
        let links = self.cells()[s].links@;
        let old_links = before.cells()[s].links@;
        assert forall|d: int| 0 <= d < n implies self.depends_on(d, s) == before.depends_on(d, s) by {}
        assert forall|k: int| 0 <= k < old_links.len() implies s < #[trigger] old_links[k] < n
            && self.depends_on(old_links[k] as int, s) by {
            assert(before.depends_on(old_links[k] as int, s));
        }
        if self.depends_on(n as int, s) {
            assert forall|k: int| 0 <= k < links.len() implies s < #[trigger] links[k]
                < self.cells().len() && self.depends_on(links[k] as int, s) by {
                if k < old_links.len() {
                    assert(links[k] == old_links[k]);
                } else {
                    assert(links[k] == n);
                }
            }
            assert forall|j: int, k: int| 0 <= j < k < links.len() implies links[j] < links[k] by {
                assert(links[j] == old_links[j]);
                if k < old_links.len() {
                    assert(links[k] == old_links[k]);
                } else {
                    assert(links[k] == n);
                }
            }
            assert forall|d: int|
                0 <= d < self.cells().len() && #[trigger] self.depends_on(d, s) implies links.contains(
                d as usize,
            ) by {
                if d < n {
                    assert(before.depends_on(d, s));
                    assert(old_links.contains(d as usize));
                    let k = choose|k: int| 0 <= k < old_links.len() && old_links[k] == d as usize;
                    assert(links[k] == d as usize);
                } else {
                    assert(links[old_links.len() as int] == n);
                }
            }
        } else {
            assert forall|k: int| 0 <= k < links.len() implies s < #[trigger] links[k]
                < self.cells().len() && self.depends_on(links[k] as int, s) by {
                assert(links[k] == old_links[k]);
            }
            assert forall|d: int|
                0 <= d < self.cells().len() && #[trigger] self.depends_on(d, s) implies links.contains(
                d as usize,
            ) by {
                assert(d < n);
                assert(before.depends_on(d, s));
            }
        }
    }
}


impl<T, F: Fn(&T) -> T, J: Fn(Vec<&T>) -> T> PromiseGraph<T, F, J> {
    /// In a sound graph every continuation of a promise depends on it, and
    /// the continuations stand in the order in which they registered: from
    /// the oldest to the youngest.
    pub proof fn lemma_continuations_in_order(&self, p: Promise, j: int, k: int)
        requires
            self.wf(),
            self.contains(p),
            0 <= j < k < self.cells()[p.index as int].links@.len(),
        ensures
            self.cells()[p.index as int].links@[j] < self.cells()[p.index as int].links@[k],
            p.index < self.cells()[p.index as int].links@[j],
            self.cells()[p.index as int].links@[k] < self.cells().len(),
            self.depends_on(self.cells()[p.index as int].links@[j] as int, p.index as int),
            self.depends_on(self.cells()[p.index as int].links@[k] as int, p.index as int),
    {
        assert(self.links_wf(p.index as int));
    }

    /// One settlement settles the continuations of each promise in the
    /// order in which they registered: of two continuations of `q` that it
    /// settles, the one that registered first stands first in its list.
    pub proof fn lemma_settled_in_registration_order(
        &self,
        before: &Self,
        settled: Seq<Promise>,
        q: Promise,
        j: int,
        k: int,
        a: int,
        b: int,
    )
        requires
            self.wf(),
            self.lists_settled(before, settled),
            self.contains(q),
            0 <= j < k < self.cells()[q.index as int].links@.len(),
            0 <= a < settled.len(),
            0 <= b < settled.len(),
            settled[a].index == self.cells()[q.index as int].links@[j],
            settled[b].index == self.cells()[q.index as int].links@[k],
        ensures
            a < b,
    {
        assert(self.links_wf(q.index as int));
        if b <= a {
            if b < a {
                assert(settled[b].index < settled[a].index);
            }
        }
    }

    /// In a sound graph every `then` continuation of a promise is in step
    /// with it: pending while the promise is pending, holding a result of
    /// its transform on the value once the promise holds one, and failed
    /// with the same failure once the promise has failed.
    pub proof fn lemma_continuation_in_step(&self, p: Promise, k: int)
        requires
            self.wf(),
            self.contains(p),
            0 <= k < self.cells()[p.index as int].links@.len(),
            self.sources()[self.cells()[p.index as int].links@[k] as int] is Then,
        ensures
            ({
                let d = self.cells()[p.index as int].links@[k] as int;
                &&& self.sources()[d]->parent == p.index
                &&& self.pending(p.index as int) <==> self.pending(d)
                &&& self.settled(p.index as int) <==> self.settled(d)
                &&& self.settled(p.index as int) ==> transformed(
                    self.sources()[d]->transform,
                    self.cells()[p.index as int].value.unwrap(),
                    self.cells()[d].value.unwrap(),
                )
                &&& self.failed(p.index as int) ==> self.cells()[d].failure
                    == self.cells()[p.index as int].failure
            }),
    {
        let d = self.cells()[p.index as int].links@[k] as int;
        assert(self.links_wf(p.index as int));
        assert(self.depends_on(d, p.index as int));
        assert(self.consistent(d));
        assert(self.cells()[d].wf());
        assert(self.cells()[p.index as int].wf());
    }

    /// In a sound graph a join holds a value exactly when every input
    /// holds one, and then it holds a result of its assembler on the values
    /// of the inputs in the order in which they were given. It has failed
    /// exactly when some input has failed, and then with the failure of a
    /// failed input.
    pub proof fn lemma_join_in_step(&self, joined: Promise)
        requires
            self.wf(),
            self.contains(joined),
            self.sources()[joined.index as int] is Join,
        ensures
            ({
                let inputs = self.sources()[joined.index as int]->inputs@;
                let to = self.cells()[joined.index as int];
                &&& to.value.is_some() <==> forall|i: int|
                    0 <= i < inputs.len() ==> self.settled(#[trigger] inputs[i] as int)
                &&& to.value.is_some() ==> assembled(
                    self.sources()[joined.index as int]->assemble,
                    self.values_of(inputs),
                    to.value.unwrap(),
                )
                &&& to.failure.is_some() <==> exists|i: int|
                    0 <= i < inputs.len() && self.failed(#[trigger] inputs[i] as int)
                &&& to.failure.is_some() ==> exists|i: int|
                    0 <= i < inputs.len() && self.cells()[#[trigger] inputs[i] as int].failure
                        == to.failure
            }),
    {
        let d = joined.index as int;
        let inputs = self.sources()[d]->inputs@;
        assert(self.consistent(d));
        assert(self.source_wf(d));
        assert(self.cells()[d].wf());
        if forall|i: int| 0 <= i < inputs.len() ==> self.settled(#[trigger] inputs[i] as int) {
            assert forall|i: int| 0 <= i < inputs.len() implies !self.failed(
                #[trigger] inputs[i] as int,
            ) by {
                assert(self.settled(inputs[i] as int));
                assert(self.cells()[inputs[i] as int].wf());
            }
        }
    }

    /// What a join hands to its assembler does not depend on the order in
    /// which its inputs settled: two sound graphs of the same shape whose
    /// inputs to the join hold the same values hand over the same sequence.
    pub proof fn lemma_join_order_free(&self, other: &Self, joined: Promise)
        requires
            self.wf(),
            other.wf(),
            self.sources() == other.sources(),
            self.contains(joined),
            self.sources()[joined.index as int] is Join,
            forall|i: int|
                0 <= i < self.sources()[joined.index as int]->inputs@.len() ==> {
                    let s = #[trigger] self.sources()[joined.index as int]->inputs@[i] as int;
                    self.cells()[s].value.is_some() && self.cells()[s].value
                        == other.cells()[s].value
                },
        ensures
            self.settled(joined.index as int),
            other.settled(joined.index as int),
            self.values_of(self.sources()[joined.index as int]->inputs@) == other.values_of(
                other.sources()[joined.index as int]->inputs@,
            ),
    {
        let inputs = self.sources()[joined.index as int]->inputs@;
        assert(joined.index < other.cells().len());
        self.lemma_join_in_step(joined);
        other.lemma_join_in_step(joined);
        assert forall|i: int| 0 <= i < inputs.len() implies other.settled(#[trigger] inputs[i] as int) by {}
        assert(self.values_of(inputs) =~= other.values_of(inputs));
    }
}

} // verus!
