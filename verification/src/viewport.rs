//! The entities of a viewport and the frame by frame progress of their
//! resources.
//!
//! An entity that is to be drawn asks for its bundle and waits in the
//! pending set. Once per frame the results of the workers are taken in and
//! the pending set is swept: an entity whose bundle has arrived becomes a
//! node of the renderer, an entity whose bundle has failed is reported and
//! dropped, and every other entity waits on. An entity that is removed or
//! configured anew before its bundle has arrived leaves the pending set at
//! once, so that it can never become a node later.

use crate::descriptor::{field_names, field_values, is_object, texts_of, Descriptor, DescriptorView};
use crate::promise::{Failure, Promise, PromiseGraph};
use crate::renderer::{shown, without, RenderNode, RenderNodeConfig, Renderer};
use crate::pon_to_resource::ShapeError;
use crate::resources::{bundle_key, request_fault, Resources};
use std::collections::HashSet;
use vstd::prelude::*;

verus! {

/// An entity that waits for its bundle.
pub struct PendingAdd<M, U> {
    pub id: u64,
    pub resources: Promise,
    pub config: RenderNodeConfig<M, U>,
}

/// What one frame has brought.
pub struct FrameReport {
    /// The number of worker results that are awaited no longer.
    pub finished: usize,
    /// The entities that have become nodes of the renderer, in the order in
    /// which they had asked.
    pub added: Vec<u64>,
    /// The entities whose bundle has failed, each with the failure.
    pub failed: Vec<(u64, Failure)>,
    /// Whether the pending set has become empty for the first time after it
    /// held something.
    pub first_load_done: bool,
}

/// The renderer, the resources and the entities that wait for their bundle.
#[verifier::reject_recursive_types(T)]
pub struct ViewportSubSystem<T, F, J, M, U> {
    pub renderer: Renderer<M, U>,
    pub resources: Resources<T, F, J>,
    pub pending_add: Vec<PendingAdd<M, U>>,
    pub first_load_timed: bool,
}

/// The node that a waiting entity becomes.
pub open spec fn node_of<M, U>(item: PendingAdd<M, U>) -> RenderNode<M, U> {
    RenderNode { id: item.id, resources: item.resources, config: item.config }
}

/// The waiting entities whose bundle is still pending, in the same order.
pub open spec fn still_pending<T, F: Fn(&T) -> T, J: Fn(Vec<&T>) -> T, M, U>(
    items: Seq<PendingAdd<M, U>>,
    graph: &PromiseGraph<T, F, J>,
) -> Seq<PendingAdd<M, U>>
    decreases items.len(),
{
    if items.len() == 0 {
        items
    } else if graph.pending(items.last().resources.index as int) {
        still_pending(items.drop_last(), graph).push(items.last())
    } else {
        still_pending(items.drop_last(), graph)
    }
}

/// The ids of the waiting entities whose bundle holds a value, in the same
/// order.
pub open spec fn arrived<T, F: Fn(&T) -> T, J: Fn(Vec<&T>) -> T, M, U>(
    items: Seq<PendingAdd<M, U>>,
    graph: &PromiseGraph<T, F, J>,
) -> Seq<u64>
    decreases items.len(),
{
    if items.len() == 0 {
        Seq::empty()
    } else if graph.settled(items.last().resources.index as int) {
        arrived(items.drop_last(), graph).push(items.last().id)
    } else {
        arrived(items.drop_last(), graph)
    }
}

/// The ids of the waiting entities whose bundle has failed, each with the
/// failure, in the same order.
pub open spec fn lost<T, F: Fn(&T) -> T, J: Fn(Vec<&T>) -> T, M, U>(
    items: Seq<PendingAdd<M, U>>,
    graph: &PromiseGraph<T, F, J>,
) -> Seq<(u64, Failure)>
    decreases items.len(),
{
    if items.len() == 0 {
        Seq::empty()
    } else if graph.failed(items.last().resources.index as int) {
        lost(items.drop_last(), graph).push(
            (items.last().id, graph.cells()[items.last().resources.index as int].failure.unwrap()),
        )
    } else {
        lost(items.drop_last(), graph)
    }
}

/// The two kinds of nodes after every waiting entity whose bundle holds a
/// value was added as a node, one after the other.
pub open spec fn promoted<T, F: Fn(&T) -> T, J: Fn(Vec<&T>) -> T, M, U>(
    kinds: (Seq<RenderNode<M, U>>, Seq<RenderNode<M, U>>),
    items: Seq<PendingAdd<M, U>>,
    graph: &PromiseGraph<T, F, J>,
) -> (Seq<RenderNode<M, U>>, Seq<RenderNode<M, U>>)
    decreases items.len(),
{
    if items.len() == 0 {
        kinds
    } else if graph.settled(items.last().resources.index as int) {
        shown(promoted(kinds, items.drop_last(), graph), node_of(items.last()))
    } else {
        promoted(kinds, items.drop_last(), graph)
    }
}

/// Every node has a promise of the graph that holds a value.
pub open spec fn drawable<T, F: Fn(&T) -> T, J: Fn(Vec<&T>) -> T, M, U>(
    nodes: Seq<RenderNode<M, U>>,
    graph: &PromiseGraph<T, F, J>,
) -> bool {
    forall|i: int|
        0 <= i < nodes.len() ==> graph.contains((#[trigger] nodes[i]).resources) && graph.settled(
            nodes[i].resources.index as int,
        )
}

/// Every waiting entity has a promise of the graph.
pub open spec fn awaited<T, F: Fn(&T) -> T, J: Fn(Vec<&T>) -> T, M, U>(
    items: Seq<PendingAdd<M, U>>,
    graph: &PromiseGraph<T, F, J>,
) -> bool {
    forall|i: int| 0 <= i < items.len() ==> graph.contains((#[trigger] items[i]).resources)
}

impl<T, F: Fn(&T) -> T + Copy, J: Fn(Vec<&T>) -> T + Copy, M, U> ViewportSubSystem<T, F, J, M, U> {
    /// The resources and the renderer are sound, every waiting entity has a
    /// promise of the graph, and every node has one that holds a value.
    pub open spec fn wf(&self) -> bool {
        &&& self.resources.wf()
        &&& self.renderer.wf()
        &&& awaited(self.pending_add@, &self.resources.graph())
        &&& drawable(self.renderer.opaque(), &self.resources.graph())
        &&& drawable(self.renderer.translucent(), &self.resources.graph())
    }

    /// A viewport without entities.
    pub fn new(resources: Resources<T, F, J>, renderer: Renderer<M, U>) -> (viewport: Self)
        requires
            resources.wf(),
            renderer.wf(),
            renderer.opaque().len() == 0,
            renderer.translucent().len() == 0,
        ensures
            viewport.wf(),
            viewport.resources == resources,
            viewport.renderer == renderer,
            viewport.pending_add@.len() == 0,
            !viewport.first_load_timed,
    {
        ViewportSubSystem { renderer, resources, pending_add: Vec::new(), first_load_timed: false }
    }

    /// One frame: takes in the results of the workers that have arrived,
    /// without waiting for any, and sweeps the pending set. An entity whose
    /// bundle holds a value becomes a node of the renderer; an entity whose
    /// bundle has failed is dropped and reported; the others wait on, in
    /// their order.
    pub fn update(&mut self) -> (report: FrameReport)
        requires
            old(self).wf(),
        ensures
            final(self).wf(),
            final(self).resources.same_requests(&old(self).resources),
            final(self).resources.graph().sources() == old(self).resources.graph().sources(),
            final(self).resources.graph().cells().len() == old(self).resources.graph().cells().len(),
            forall|d: int|
                0 <= d < old(self).resources.graph().cells().len() && !old(self).resources.graph().pending(d) ==> (#[trigger] final(self).resources.graph().cells()[d])
                    == old(self).resources.graph().cells()[d],
            report.finished + final(self).resources.runner().tasks().len() == old(self).resources.runner().tasks().len(),
            forall|d: int|
                0 <= d < old(self).resources.graph().cells().len() && old(self).resources.graph().sources()[d] is Root
                    && !(exists|i: int|
                    0 <= i < old(self).resources.runner().tasks().len() && (
                    #[trigger] old(self).resources.runner().tasks()[i]).promise.index == d) ==> (
                #[trigger] final(self).resources.graph().cells()[d]) == old(self).resources.graph().cells()[d],
            final(self).pending_add@ == still_pending(
                old(self).pending_add@,
                &final(self).resources.graph(),
            ),
            (final(self).renderer.opaque(), final(self).renderer.translucent()) == promoted(
                (old(self).renderer.opaque(), old(self).renderer.translucent()),
                old(self).pending_add@,
                &final(self).resources.graph(),
            ),
            final(self).renderer.view_camera() == old(self).renderer.view_camera(),
            report.added@ == arrived(old(self).pending_add@, &final(self).resources.graph()),
            report.failed@ == lost(old(self).pending_add@, &final(self).resources.graph()),
            report.first_load_done == (final(self).pending_add@.len() == 0 && old(self).pending_add@.len() != 0 && !old(self).first_load_timed),
            final(self).first_load_timed == (old(self).first_load_timed || report.first_load_done),
    {
        let finished = self.resources.update();
        let mut waiting: Vec<PendingAdd<M, U>> = Vec::new();
        std::mem::swap(&mut self.pending_add, &mut waiting);
        let was_empty = waiting.len() == 0;
        let mut added: Vec<u64> = Vec::new();
        let mut failed: Vec<(u64, Failure)> = Vec::new();
        let ghost all = waiting@;
        let ghost graph = self.resources.graph();
        let ghost polled = self.resources;
        let ghost kinds = (self.renderer.opaque(), self.renderer.translucent());
        proof {
            assert(awaited(all, &graph));
            assert(drawable(kinds.0, &graph));
            assert(drawable(kinds.1, &graph));
        }
        for item in iter: waiting
            invariant
                iter.seq() == all,
                self.resources == polled,
                polled.wf(),
                polled.graph() == graph,
                self.renderer.wf(),
                self.renderer.view_camera() == old(self).renderer.view_camera(),
                self.first_load_timed == old(self).first_load_timed,
                awaited(all, &graph),
                drawable(self.renderer.opaque(), &graph),
                drawable(self.renderer.translucent(), &graph),
                self.pending_add@ == still_pending(all.take(iter.index() as int), &graph),
                (self.renderer.opaque(), self.renderer.translucent()) == promoted(
                    kinds,
                    all.take(iter.index() as int),
                    &graph,
                ),
                added@ == arrived(all.take(iter.index() as int), &graph),
                failed@ == lost(all.take(iter.index() as int), &graph),
                awaited(self.pending_add@, &graph),
        {
            let ghost shorter = all.take(iter.index() as int);
            let ghost before = (self.renderer.opaque(), self.renderer.translucent());
            let ghost held = self.pending_add@;
            proof {
                assert(all.take(iter.index() + 1).drop_last() =~= shorter);
                assert(all.take(iter.index() + 1).last() == item);
                assert(graph.contains(all[iter.index() as int].resources));
                assert(graph.cells()[item.resources.index as int].wf());
            }
            if item.resources.is_pending(self.resources.promises()) {
                self.pending_add.push(item);
                proof {
                    assert forall|i: int| 0 <= i < self.pending_add@.len() implies graph.contains(
                        (#[trigger] self.pending_add@[i]).resources,
                    ) by {
                        if i < held.len() {
                            assert(self.pending_add@[i] == held[i]);
                        }
                    }
                }
            } else {
                match item.resources.failure(self.resources.promises()) {
                    Some(failure) => {
                        failed.push((item.id, failure));
                    },
                    None => {
                        added.push(item.id);
                        let node = RenderNode {
                            id: item.id,
                            resources: item.resources,
                            config: item.config,
                        };
                        self.renderer.add_node(node);
                        proof {
                            lemma_shown_drawable(before, node, &graph);
                        }
                    },
                }
            }
        }
        proof {
            assert(all.take(all.len() as int) =~= all);
        }
        let first_load_done = self.pending_add.len() == 0 && !was_empty && !self.first_load_timed;
        if first_load_done {
            self.first_load_timed = true;
        }
        FrameReport { finished, added, failed, first_load_done }
    }
}

/// A change of one property of one entity.
pub struct PropRef {
    pub entity_id: u64,
    pub property_key: String,
}

/// What an entity says of how it is to be drawn.
pub struct EntityProperties<M, U> {
    /// The shader; without one the shader named "basic" is taken.
    pub shader: Option<Descriptor>,
    /// The mesh; without one the entity is not drawn.
    pub mesh: Option<Descriptor>,
    /// The textures: an object whose fields name them.
    pub textures: Option<Descriptor>,
    /// One texture, taken under the name "diffuse" where `textures` is
    /// absent; without either the entity is not drawn.
    pub diffuse: Option<Descriptor>,
    pub transform: M,
    pub uniforms: U,
    /// Whether the entity is drawn with blending; without a word on it, it
    /// is not.
    pub alpha: Option<bool>,
}

/// Why the properties of an entity could not be taken.
#[derive(Debug)]
pub enum DescriptorError {
    /// The property of this name is no object.
    NotAnObject { field: String },
    /// A descriptor of the entity has not the shape of its kind.
    Malformed { error: ShapeError },
}

/// Whether an entity with these properties is drawn with blending.
pub open spec fn blended<M, U>(properties: EntityProperties<M, U>) -> bool {
    match properties.alpha {
        Some(alpha) => alpha,
        None => false,
    }
}

/// The waiting entities with another id than `key`, in the same order.
pub open spec fn unlisted<M, U>(items: Seq<PendingAdd<M, U>>, key: u64) -> Seq<PendingAdd<M, U>>
    decreases items.len(),
{
    if items.len() == 0 {
        items
    } else if items.last().id == key {
        unlisted(items.drop_last(), key)
    } else {
        unlisted(items.drop_last(), key).push(items.last())
    }
}

/// Every one of them was among `items`.
pub proof fn lemma_unlisted<M, U>(items: Seq<PendingAdd<M, U>>, key: u64)
    ensures
        forall|i: int|
            0 <= i < unlisted(items, key).len() ==> items.contains(#[trigger] unlisted(items, key)[i])
                && unlisted(items, key)[i].id != key,
    decreases items.len(),
{
    if items.len() > 0 {
        let front = items.drop_last();
        lemma_unlisted(front, key);
        let kept = unlisted(front, key);
        let all = unlisted(items, key);
        assert forall|i: int| 0 <= i < all.len() implies items.contains(#[trigger] all[i]) && all[i].id
            != key by {
            if i < kept.len() {
                assert(front.contains(kept[i]));
                let at = choose|at: int| 0 <= at < front.len() && front[at] == kept[i];
                assert(items[at] == kept[i]);
            } else {
                assert(items[items.len() - 1] == all[i]);
            }
        }
    }
}

/// An entity that has left the pending set does not arrive: whatever
/// bundles hold a value afterwards, its id is not among those that become
/// nodes.
pub proof fn lemma_removed_never_arrives<T, F: Fn(&T) -> T, J: Fn(Vec<&T>) -> T, M, U>(
    items: Seq<PendingAdd<M, U>>,
    key: u64,
    graph: &PromiseGraph<T, F, J>,
)
    ensures
        !arrived(unlisted(items, key), graph).contains(key),
{
    lemma_unlisted(items, key);
    lemma_arrived_were_waiting(unlisted(items, key), graph);
    if arrived(unlisted(items, key), graph).contains(key) {
        let at = choose|at: int|
            0 <= at < unlisted(items, key).len() && (#[trigger] unlisted(items, key)[at]).id == key;
        assert(unlisted(items, key)[at].id != key);
    }
}

/// Every entity that arrives was waiting, with a bundle that holds a value.
pub proof fn lemma_arrived_were_waiting<T, F: Fn(&T) -> T, J: Fn(Vec<&T>) -> T, M, U>(
    items: Seq<PendingAdd<M, U>>,
    graph: &PromiseGraph<T, F, J>,
)
    ensures
        forall|id: u64| #[trigger]
            arrived(items, graph).contains(id) ==> exists|at: int|
                0 <= at < items.len() && (#[trigger] items[at]).id == id && graph.settled(
                    items[at].resources.index as int,
                ),
    decreases items.len(),
{
    if items.len() > 0 {
        let front = items.drop_last();
        lemma_arrived_were_waiting(front, graph);
        assert forall|id: u64| #[trigger] arrived(items, graph).contains(id) implies exists|at: int|
            0 <= at < items.len() && (#[trigger] items[at]).id == id && graph.settled(
                items[at].resources.index as int,
            ) by {
            let all = arrived(items, graph);
            let i = choose|i: int| 0 <= i < all.len() && all[i] == id;
            if graph.settled(items.last().resources.index as int) && i == all.len() - 1 {
                assert(items[items.len() - 1].id == id);
            } else {
                assert(arrived(front, graph)[i] == id);
                assert(arrived(front, graph).contains(id));
                let at = choose|at: int|
                    0 <= at < front.len() && (#[trigger] front[at]).id == id && graph.settled(
                        front[at].resources.index as int,
                    );
                assert(items[at] == front[at]);
            }
        }
    }
}

/// A change of this property asks for the entity to be configured anew.
pub open spec fn is_renderable_key(key: Seq<char>) -> bool {
    key == "mesh"@ || key == "diffuse"@ || key == "alpha"@ || key == "uniforms"@
}

/// The entities among the changes with a property that asks for them to be
/// configured anew: each once, in the order of its first such change.
pub open spec fn changed_entities(changes: Seq<PropRef>) -> Seq<u64>
    decreases changes.len(),
{
    if changes.len() == 0 {
        Seq::empty()
    } else {
        let before = changed_entities(changes.drop_last());
        if is_renderable_key(changes.last().property_key@) && !before.contains(
            changes.last().entity_id,
        ) {
            before.push(changes.last().entity_id)
        } else {
            before
        }
    }
}

/// The entities among the changes whose property has the name `key`, one
/// for each such change, in the order of the changes.
pub open spec fn entities_with(changes: Seq<PropRef>, key: Seq<char>) -> Seq<u64>
    decreases changes.len(),
{
    if changes.len() == 0 {
        Seq::empty()
    } else if changes.last().property_key@ == key {
        entities_with(changes.drop_last(), key).push(changes.last().entity_id)
    } else {
        entities_with(changes.drop_last(), key)
    }
}

/// The waiting entities after those with one of the ids `keys` have left.
pub open spec fn cleared<M, U>(items: Seq<PendingAdd<M, U>>, keys: Seq<u64>) -> Seq<PendingAdd<M, U>>
    decreases keys.len(),
{
    if keys.len() == 0 {
        items
    } else {
        unlisted(cleared(items, keys.drop_last()), keys.last())
    }
}

/// The nodes after those with one of the ids `keys` have left.
pub open spec fn swept<M, U>(nodes: Seq<RenderNode<M, U>>, keys: Seq<u64>) -> Seq<RenderNode<M, U>>
    decreases keys.len(),
{
    if keys.len() == 0 {
        nodes
    } else {
        without(swept(nodes, keys.drop_last()), keys.last())
    }
}

/// The descriptor that names the textures of an entity: its textures, or
/// else its diffuse texture as the one field of an object.
pub open spec fn texture_source<M, U>(properties: EntityProperties<M, U>) -> Option<DescriptorView> {
    match properties.textures {
        Some(textures) => Some(textures@),
        None => match properties.diffuse {
            Some(diffuse) => Some(
                DescriptorView::Sequence(
                    seq![DescriptorView::Named { name: "diffuse"@, value: Box::new(diffuse@) }],
                ),
            ),
            None => None,
        },
    }
}

/// The descriptor that names the shader of an entity.
pub open spec fn shader_source<M, U>(properties: EntityProperties<M, U>) -> DescriptorView {
    match properties.shader {
        Some(shader) => shader@,
        None => DescriptorView::Text("basic"@),
    }
}

/// The entities among the changes with a property that asks for them to be
/// configured anew: each once, in the order of its first such change.
pub fn renderable_changed(prop_refs: &Vec<PropRef>) -> (changed: Vec<u64>)
    ensures
        changed@ == changed_entities(prop_refs@),
{
    broadcast use vstd::std_specs::hash::group_hash_axioms;

    let mesh = "mesh".to_owned();
    let diffuse = "diffuse".to_owned();
    let alpha = "alpha".to_owned();
    let uniforms = "uniforms".to_owned();
    let mut seen: HashSet<u64> = HashSet::new();
    let mut changed: Vec<u64> = Vec::new();
    let mut i: usize = 0;
    while i < prop_refs.len()
        invariant
            i <= prop_refs@.len(),
            mesh@ == "mesh"@,
            diffuse@ == "diffuse"@,
            alpha@ == "alpha"@,
            uniforms@ == "uniforms"@,
            changed@ == changed_entities(prop_refs@.take(i as int)),
            forall|id: u64| seen@.contains(id) <==> changed@.contains(id),
        decreases prop_refs@.len() - i,
    {
        proof {
            assert(prop_refs@.take(i + 1).drop_last() =~= prop_refs@.take(i as int));
        }
        let change = &prop_refs[i];
        if change.property_key == mesh || change.property_key == diffuse || change.property_key
            == alpha || change.property_key == uniforms {
            let ghost listed = changed@;
            if seen.insert(change.entity_id) {
                changed.push(change.entity_id);
                proof {
                    assert forall|id: u64| seen@.contains(id) <==> changed@.contains(id) by {
                        if id == change.entity_id {
                            assert(changed@[listed.len() as int] == id);
                        } else {
                            if listed.contains(id) {
                                let at = choose|at: int| 0 <= at < listed.len() && listed[at] == id;
                                assert(changed@[at] == id);
                            }
                            if changed@.contains(id) {
                                let at = choose|at: int| 0 <= at < changed@.len() && changed@[at] == id;
                                assert(listed[at] == id);
                            }
                        }
                    }
                }
            }
        }
        i += 1;
    }
    proof {
        assert(prop_refs@.take(prop_refs@.len() as int) =~= prop_refs@);
    }
    changed
}

/// The entities among the changes whose property has the name `key`.
pub fn changed_with_key(prop_refs: &Vec<PropRef>, key: &String) -> (found: Vec<u64>)
    ensures
        found@ == entities_with(prop_refs@, key@),
{
    let mut found: Vec<u64> = Vec::new();
    let mut i: usize = 0;
    while i < prop_refs.len()
        invariant
            i <= prop_refs@.len(),
            found@ == entities_with(prop_refs@.take(i as int), key@),
        decreases prop_refs@.len() - i,
    {
        proof {
            assert(prop_refs@.take(i + 1).drop_last() =~= prop_refs@.take(i as int));
        }
        if prop_refs[i].property_key == *key {
            found.push(prop_refs[i].entity_id);
        }
        i += 1;
    }
    proof {
        assert(prop_refs@.take(prop_refs@.len() as int) =~= prop_refs@);
    }
    found
}

/// The entities whose transform has changed: those among the changes
/// whose property is `transformed`, one for each such change.
pub fn transform_changed(prop_refs: &Vec<PropRef>) -> (moved: Vec<u64>)
    ensures
        moved@ == entities_with(prop_refs@, "transformed"@),
{
    changed_with_key(prop_refs, &"transformed".to_owned())
}

/// The entities that hold a camera whose value has changed: those among
/// the changes whose property is `camera`, one for each such change.
pub fn camera_changed(prop_refs: &Vec<PropRef>) -> (cameras: Vec<u64>)
    ensures
        cameras@ == entities_with(prop_refs@, "camera"@),
{
    changed_with_key(prop_refs, &"camera".to_owned())
}

/// The waiting entities with another id than `key`, in the same order.
fn drop_pending<M, U>(items: Vec<PendingAdd<M, U>>, key: u64) -> (kept: Vec<PendingAdd<M, U>>)
    ensures
        kept@ == unlisted(items@, key),
{
    let mut kept: Vec<PendingAdd<M, U>> = Vec::new();
    let ghost all = items@;
    for item in iter: items
        invariant
            iter.seq() == all,
            kept@ == unlisted(all.take(iter.index() as int), key),
    {
        proof {
            assert(all.take(iter.index() + 1).drop_last() =~= all.take(iter.index() as int));
        }
        if item.id != key {
            kept.push(item);
        }
    }
    proof {
        assert(all.take(all.len() as int) =~= all);
    }
    kept
}

impl<T, F: Fn(&T) -> T + Copy, J: Fn(Vec<&T>) -> T + Copy, M, U> ViewportSubSystem<T, F, J, M, U> {
    /// Takes an entity out of the renderer and out of the pending set, so
    /// that a bundle that arrives later can no longer make it a node. The
    /// promises and the caches stay as they are: what was constructed for
    /// the entity serves whoever asks for the same again.
    pub fn renderer_remove(&mut self, entity_id: &u64)
        requires
            old(self).wf(),
        ensures
            final(self).wf(),
            final(self).resources == old(self).resources,
            final(self).first_load_timed == old(self).first_load_timed,
            final(self).pending_add@ == unlisted(old(self).pending_add@, *entity_id),
            final(self).renderer.opaque() == without(old(self).renderer.opaque(), *entity_id),
            final(self).renderer.translucent() == without(
                old(self).renderer.translucent(),
                *entity_id,
            ),
            final(self).renderer.view_camera() == old(self).renderer.view_camera(),
    {
        self.renderer.remove_node(entity_id);
        let mut waiting: Vec<PendingAdd<M, U>> = Vec::new();
        std::mem::swap(&mut self.pending_add, &mut waiting);
        self.pending_add = drop_pending(waiting, *entity_id);
        proof {
            let graph = self.resources.graph();
            lemma_without_drawable(old(self).renderer.opaque(), *entity_id, &graph);
            lemma_without_drawable(old(self).renderer.translucent(), *entity_id, &graph);
            lemma_unlisted(old(self).pending_add@, *entity_id);
            assert forall|i: int| 0 <= i < self.pending_add@.len() implies graph.contains(
                (#[trigger] self.pending_add@[i]).resources,
            ) by {
                let item = self.pending_add@[i];
                assert(old(self).pending_add@.contains(item));
                let at = choose|at: int|
                    0 <= at < old(self).pending_add@.len() && old(self).pending_add@[at] == item;
                assert(graph.contains(old(self).pending_add@[at].resources));
            }
        }
    }

    /// Takes every entity out that a change asks to be configured anew, and
    /// returns these entities: each once, in the order of its first such
    /// change. Whoever runs the session then adds each of them again with
    /// the properties that it has now.
    pub fn on_property_value_change(&mut self, prop_refs: &Vec<PropRef>) -> (changed: Vec<u64>)
        requires
            old(self).wf(),
        ensures
            final(self).wf(),
            changed@ == changed_entities(prop_refs@),
            final(self).resources == old(self).resources,
            final(self).first_load_timed == old(self).first_load_timed,
            final(self).pending_add@ == cleared(old(self).pending_add@, changed@),
            final(self).renderer.opaque() == swept(old(self).renderer.opaque(), changed@),
            final(self).renderer.translucent() == swept(old(self).renderer.translucent(), changed@),
            final(self).renderer.view_camera() == old(self).renderer.view_camera(),
    {
        let changed = renderable_changed(prop_refs);
        let mut i: usize = 0;
        while i < changed.len()
            invariant
                i <= changed@.len(),
                self.wf(),
                self.resources == old(self).resources,
                self.first_load_timed == old(self).first_load_timed,
                self.pending_add@ == cleared(old(self).pending_add@, changed@.take(i as int)),
                self.renderer.opaque() == swept(old(self).renderer.opaque(), changed@.take(i as int)),
                self.renderer.translucent() == swept(
                    old(self).renderer.translucent(),
                    changed@.take(i as int),
                ),
                self.renderer.view_camera() == old(self).renderer.view_camera(),
            decreases changed@.len() - i,
        {
            proof {
                assert(changed@.take(i + 1).drop_last() =~= changed@.take(i as int));
            }
            self.renderer_remove(&changed[i]);
            i += 1;
        }
        proof {
            assert(changed@.take(changed@.len() as int) =~= changed@);
        }
        changed
    }

    /// Asks for the bundle of an entity and lets the entity wait for it.
    ///
    /// An entity without a mesh, or with neither textures nor a diffuse
    /// texture, is not drawn: nothing is asked for. Textures that are no
    /// object are refused, and so is a mesh, a shader or a texture that is
    /// new to its cache and has not the shape of its kind; the error names
    /// what is at fault, and everything stays as it was. Otherwise the
    /// bundle of the mesh, the shader and the textures, in the order of
    /// their fields, is requested, and the entity joins the pending set as
    /// its last, with the names of the fields as the names of its
    /// textures.
    pub fn renderer_add(&mut self, entity_id: &u64, properties: EntityProperties<M, U>) -> (outcome:
        Result<bool, DescriptorError>)
        requires
            old(self).wf(),
        ensures
            final(self).wf(),
            final(self).renderer == old(self).renderer,
            final(self).first_load_timed == old(self).first_load_timed,
            match outcome {
                Ok(true) => {
                    &&& properties.mesh.is_some()
                    &&& texture_source(properties).is_some()
                    &&& is_object(texture_source(properties).unwrap())
                    &&& request_fault(
                        old(self).resources.layers(),
                        properties.mesh.unwrap()@,
                        shader_source(properties),
                        field_values(texture_source(properties).unwrap()),
                    ) is None
                },
                Ok(false) => properties.mesh.is_none() || texture_source(properties).is_none(),
                Err(DescriptorError::NotAnObject { field }) => {
                    &&& properties.mesh.is_some()
                    &&& texture_source(properties).is_some()
                    &&& !is_object(texture_source(properties).unwrap())
                    &&& field@ == "textures"@
                },
                Err(DescriptorError::Malformed { error }) => {
                    &&& properties.mesh.is_some()
                    &&& texture_source(properties).is_some()
                    &&& is_object(texture_source(properties).unwrap())
                    &&& request_fault(
                        old(self).resources.layers(),
                        properties.mesh.unwrap()@,
                        shader_source(properties),
                        field_values(texture_source(properties).unwrap()),
                    ) == Some(error@)
                },
            },
            !(outcome matches Ok(true)) ==> final(self).resources == old(self).resources && final(self).pending_add@ == old(self).pending_add@,
            outcome matches Ok(true) ==> {
                let key = bundle_key(
                    properties.mesh.unwrap()@,
                    shader_source(properties),
                    field_values(texture_source(properties).unwrap()),
                );
                let added = final(self).pending_add@.last();
                &&& final(self).resources.answers(
                    &old(self).resources,
                    properties.mesh.unwrap()@,
                    shader_source(properties),
                    field_values(texture_source(properties).unwrap()),
                    added.resources,
                )
                &&& final(self).pending_add@.len() == old(self).pending_add@.len() + 1
                &&& final(self).pending_add@.drop_last() == old(self).pending_add@
                &&& added.id == *entity_id
                &&& added.resources == final(self).resources.layers().bundles[key]
                &&& texts_of(added.config.texture_ids@) == field_names(
                    texture_source(properties).unwrap(),
                )
                &&& added.config.transform == properties.transform
                &&& added.config.uniforms == properties.uniforms
                &&& added.config.alpha == blended(properties)
            },
    {
        let EntityProperties { shader, mesh, textures, diffuse, transform, uniforms, alpha } =
            properties;
        let shader_key = match shader {
            Some(shader) => shader,
            None => Descriptor::Text("basic".to_owned()),
        };
        let mesh_key = match mesh {
            Some(mesh) => mesh,
            None => {
                return Ok(false);
            },
        };
        let texture_keys = match textures {
            Some(textures) => textures,
            None => match diffuse {
                Some(diffuse) => Descriptor::object_of("diffuse".to_owned(), diffuse),
                None => {
                    return Ok(false);
                },
            },
        };
        proof {
            if properties.textures.is_none() {
                let wanted = texture_source(properties).unwrap();
                assert(texture_keys@->Sequence_0.len() == 1) by {
                    assert(field_names(texture_keys@).len() == 1);
                }
                assert(texture_keys@->Sequence_0[0] is Named);
                assert(field_names(texture_keys@)[0] == "diffuse"@);
                assert(field_values(texture_keys@)[0] == properties.diffuse.unwrap()@);
                assert(texture_keys@->Sequence_0 =~= wanted->Sequence_0);
            }
            assert(texture_keys@ == texture_source(properties).unwrap());
        }
        let (texture_ids, texture_keys_vec) = match texture_keys.object_fields() {
            Some(fields) => fields,
            None => {
                return Err(DescriptorError::NotAnObject { field: "textures".to_owned() });
            },
        };
        let ghost graph = self.resources.graph();
        let resources = match self.resources.get(&mesh_key, &shader_key, texture_keys_vec) {
            Ok(bundle) => bundle,
            Err(error) => {
                return Err(DescriptorError::Malformed { error });
            },
        };
        let alpha = match alpha {
            Some(alpha) => alpha,
            None => false,
        };
        let ghost waiting = self.pending_add@;
        self.pending_add.push(
            PendingAdd {
                id: *entity_id,
                resources,
                config: RenderNodeConfig { texture_ids, transform, uniforms, alpha },
            },
        );
        proof {
            let grown = self.resources.graph();
            assert(self.pending_add@.drop_last() =~= waiting);
            assert forall|i: int| 0 <= i < self.pending_add@.len() implies grown.contains(
                (#[trigger] self.pending_add@[i]).resources,
            ) by {
                if i < waiting.len() {
                    assert(self.pending_add@[i] == waiting[i]);
                    assert(graph.contains(waiting[i].resources));
                }
            }
            lemma_drawable_grows(self.renderer.opaque(), &graph, &grown);
            lemma_drawable_grows(self.renderer.translucent(), &graph, &grown);
        }
        Ok(true)
    }
}

/// Nodes stay drawable when the graph grows.
pub proof fn lemma_drawable_grows<T, F: Fn(&T) -> T, J: Fn(Vec<&T>) -> T, M, U>(
    nodes: Seq<RenderNode<M, U>>,
    before: &PromiseGraph<T, F, J>,
    after: &PromiseGraph<T, F, J>,
)
    requires
        drawable(nodes, before),
        after.extends(before),
    ensures
        drawable(nodes, after),
{
    assert forall|i: int| 0 <= i < nodes.len() implies after.contains((#[trigger] nodes[i]).resources)
        && after.settled(nodes[i].resources.index as int) by {
        assert(before.contains(nodes[i].resources));
        assert(after.cells()[nodes[i].resources.index as int].value
            == before.cells()[nodes[i].resources.index as int].value);
    }
}

/// Adding a node whose promise holds a value keeps the nodes drawable.
pub proof fn lemma_shown_drawable<T, F: Fn(&T) -> T, J: Fn(Vec<&T>) -> T, M, U>(
    kinds: (Seq<RenderNode<M, U>>, Seq<RenderNode<M, U>>),
    node: RenderNode<M, U>,
    graph: &PromiseGraph<T, F, J>,
)
    requires
        drawable(kinds.0, graph),
        drawable(kinds.1, graph),
        graph.contains(node.resources),
        graph.settled(node.resources.index as int),
    ensures
        drawable(shown(kinds, node).0, graph),
        drawable(shown(kinds, node).1, graph),
{
    lemma_without_drawable(kinds.0, node.id, graph);
    lemma_without_drawable(kinds.1, node.id, graph);
}

/// Taking nodes out keeps the nodes drawable.
pub proof fn lemma_without_drawable<T, F: Fn(&T) -> T, J: Fn(Vec<&T>) -> T, M, U>(
    nodes: Seq<RenderNode<M, U>>,
    key: u64,
    graph: &PromiseGraph<T, F, J>,
)
    requires
        drawable(nodes, graph),
    ensures
        drawable(without(nodes, key), graph),
{
    crate::renderer::lemma_without(nodes, key);
    assert forall|i: int| 0 <= i < without(nodes, key).len() implies graph.contains(
        (#[trigger] without(nodes, key)[i]).resources,
    ) && graph.settled(without(nodes, key)[i].resources.index as int) by {
        let node = without(nodes, key)[i];
        assert(nodes.contains(node));
        let at = choose|at: int| 0 <= at < nodes.len() && nodes[at] == node;
        assert(graph.contains(nodes[at].resources));
    }
}

} // verus!
