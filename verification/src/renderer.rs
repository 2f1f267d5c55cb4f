//! The nodes that are drawn, and their order.
//!
//! A node is drawn with the bundle that its promise holds. Opaque nodes are
//! drawn first and translucent nodes after them, each kind in the order in
//! which the nodes were added. No two nodes have the same id, and a map
//! from ids tells at once whether an id has a node and of which kind.

use crate::promise::Promise;
use std::collections::HashMap;
use vstd::prelude::*;

verus! {

/// How a node is drawn. `M` is the type of a transform, `U` the type of the
/// values that are handed to the shader.
pub struct RenderNodeConfig<M, U> {
    /// The name under which each texture of the bundle is bound.
    pub texture_ids: Vec<String>,
    pub transform: M,
    pub uniforms: U,
    /// Whether the node is drawn with blending, after the opaque ones.
    pub alpha: bool,
}

/// One thing to draw: the entity it stands for, the promise of its bundle,
/// and how it is drawn.
pub struct RenderNode<M, U> {
    pub id: u64,
    pub resources: Promise,
    pub config: RenderNodeConfig<M, U>,
}

/// The nodes to draw and the camera.
pub struct Renderer<M, U> {
    opaque_nodes: Vec<RenderNode<M, U>>,
    translucent_nodes: Vec<RenderNode<M, U>>,
    nodes_by_id: HashMap<u64, bool>,
    camera: M,
}

/// The nodes with another id than `key`, in the same order.
pub open spec fn without<M, U>(nodes: Seq<RenderNode<M, U>>, key: u64) -> Seq<RenderNode<M, U>>
    decreases nodes.len(),
{
    if nodes.len() == 0 {
        nodes
    } else if nodes.last().id == key {
        without(nodes.drop_last(), key)
    } else {
        without(nodes.drop_last(), key).push(nodes.last())
    }
}

/// No two of the nodes have the same id.
pub open spec fn distinct<M, U>(nodes: Seq<RenderNode<M, U>>) -> bool {
    forall|i: int, j: int| 0 <= i < j < nodes.len() ==> (#[trigger] nodes[i]).id != (#[trigger] nodes[j]).id
}

/// One of the nodes has the id `key`.
pub open spec fn holds_id<M, U>(nodes: Seq<RenderNode<M, U>>, key: u64) -> bool {
    exists|i: int| 0 <= i < nodes.len() && (#[trigger] nodes[i]).id == key
}

/// The node with another transform.
pub open spec fn placed<M, U>(node: RenderNode<M, U>, transform: M) -> RenderNode<M, U> {
    RenderNode {
        id: node.id,
        resources: node.resources,
        config: RenderNodeConfig {
            texture_ids: node.config.texture_ids,
            transform,
            uniforms: node.config.uniforms,
            alpha: node.config.alpha,
        },
    }
}

/// The nodes, where each node with id `key` has the transform `transform`.
pub open spec fn moved<M, U>(nodes: Seq<RenderNode<M, U>>, key: u64, transform: M) -> Seq<
    RenderNode<M, U>,
> {
    Seq::new(
        nodes.len(),
        |i: int|
            if nodes[i].id == key {
                placed(nodes[i], transform)
            } else {
                nodes[i]
            },
    )
}

/// The two kinds of nodes, opaque and translucent, after `node` was added:
/// a node with the same id is taken out, and `node` is the last of its kind.
pub open spec fn shown<M, U>(
    kinds: (Seq<RenderNode<M, U>>, Seq<RenderNode<M, U>>),
    node: RenderNode<M, U>,
) -> (Seq<RenderNode<M, U>>, Seq<RenderNode<M, U>>) {
    if node.config.alpha {
        (without(kinds.0, node.id), without(kinds.1, node.id).push(node))
    } else {
        (without(kinds.0, node.id).push(node), without(kinds.1, node.id))
    }
}

/// Giving a node another transform keeps the ids and the kinds of all
/// nodes.
pub proof fn lemma_moved_keeps<M, U>(nodes: Seq<RenderNode<M, U>>, key: u64, transform: M)
    ensures
        moved(nodes, key, transform).len() == nodes.len(),
        forall|i: int|
            0 <= i < nodes.len() ==> (#[trigger] moved(nodes, key, transform)[i]).id == nodes[i].id
                && moved(nodes, key, transform)[i].config.alpha == nodes[i].config.alpha,
        forall|id: u64| holds_id(nodes, id) ==> holds_id(moved(nodes, key, transform), id),
{
    assert forall|id: u64| holds_id(nodes, id) implies holds_id(moved(nodes, key, transform), id) by {
        let at = choose|at: int| 0 <= at < nodes.len() && (#[trigger] nodes[at]).id == id;
        assert(moved(nodes, key, transform)[at].id == id);
    }
}

/// Dropping the nodes with id `key` leaves no such node, adds none, and
/// keeps distinct ids distinct.
pub proof fn lemma_without<M, U>(nodes: Seq<RenderNode<M, U>>, key: u64)
    ensures
        !holds_id(without(nodes, key), key),
        without(nodes, key).len() <= nodes.len(),
        forall|i: int|
            0 <= i < without(nodes, key).len() ==> nodes.contains(#[trigger] without(nodes, key)[i]),
        forall|other: u64| other != key ==> holds_id(without(nodes, key), other) == holds_id(nodes, other),
        distinct(nodes) ==> distinct(without(nodes, key)),
        !holds_id(nodes, key) ==> without(nodes, key) == nodes,
    decreases nodes.len(),
{
    if nodes.len() > 0 {
        let front = nodes.drop_last();
        let last = nodes.last();
        lemma_without(front, key);
        let kept = without(front, key);
        let all = without(nodes, key);
        assert forall|i: int| 0 <= i < all.len() implies nodes.contains(#[trigger] all[i]) by {
            if i < kept.len() {
                assert(front.contains(kept[i]));
                let at = choose|at: int| 0 <= at < front.len() && front[at] == kept[i];
                assert(nodes[at] == kept[i]);
            } else {
                assert(nodes[nodes.len() - 1] == last);
            }
        }
        assert forall|other: u64| other != key implies holds_id(all, other) == holds_id(nodes, other) by {
            if holds_id(all, other) {
                let at = choose|at: int| 0 <= at < all.len() && (#[trigger] all[at]).id == other;
                assert(nodes.contains(all[at]));
                let from = choose|from: int| 0 <= from < nodes.len() && nodes[from] == all[at];
                assert(nodes[from].id == other);
            }
            if holds_id(nodes, other) {
                let at = choose|at: int| 0 <= at < nodes.len() && (#[trigger] nodes[at]).id == other;
                if at < front.len() {
                    assert(front[at].id == other);
                    assert(holds_id(front, other));
                    let to = choose|to: int| 0 <= to < kept.len() && (#[trigger] kept[to]).id == other;
                    assert(all[to].id == other);
                } else {
                    assert(all[all.len() - 1].id == other);
                }
            }
        }
        if distinct(nodes) {
            assert forall|i: int, j: int| 0 <= i < j < front.len() implies (#[trigger] front[i]).id != (
            #[trigger] front[j]).id by {
                assert(nodes[i].id != nodes[j].id);
            }
            assert forall|i: int, j: int| 0 <= i < j < all.len() implies (#[trigger] all[i]).id != (
            #[trigger] all[j]).id by {
                if j == kept.len() {
                    assert(front.contains(kept[i]));
                    let at = choose|at: int| 0 <= at < front.len() && front[at] == kept[i];
                    assert(nodes[at].id != nodes[nodes.len() - 1].id);
                }
            }
        }
        if !holds_id(nodes, key) {
            assert(nodes[nodes.len() - 1].id != key);
            assert forall|i: int| 0 <= i < front.len() implies (#[trigger] front[i]).id != key by {
                assert(nodes[i].id != key);
            }
            assert(kept == front);
            assert(all =~= nodes);
        }
    }
}

/// The nodes with another id than `key`, in the same order.
fn drop_node<M, U>(nodes: Vec<RenderNode<M, U>>, key: u64) -> (kept: Vec<RenderNode<M, U>>)
    ensures
        kept@ == without(nodes@, key),
{
    let mut kept: Vec<RenderNode<M, U>> = Vec::new();
    let ghost all = nodes@;
    for node in iter: nodes
        invariant
            iter.seq() == all,
            kept@ == without(all.take(iter.index() as int), key),
    {
        proof {
            assert(all.take(iter.index() + 1).drop_last() =~= all.take(iter.index() as int));
        }
        if node.id != key {
            kept.push(node);
        }
    }
    proof {
        assert(all.take(all.len() as int) =~= all);
    }
    kept
}

impl<M, U> Renderer<M, U> {
    /// The opaque nodes, in the order in which they are drawn.
    pub closed spec fn opaque(&self) -> Seq<RenderNode<M, U>> {
        self.opaque_nodes@
    }

    /// The translucent nodes, in the order in which they are drawn.
    pub closed spec fn translucent(&self) -> Seq<RenderNode<M, U>> {
        self.translucent_nodes@
    }

    /// The camera.
    pub closed spec fn view_camera(&self) -> M {
        self.camera
    }

    /// For the id of each node, whether the node is translucent.
    pub closed spec fn kinds(&self) -> Map<u64, bool> {
        self.nodes_by_id@
    }

    /// No two nodes have the same id, every node stands with its kind, and
    /// the map of kinds knows exactly the ids of the nodes.
    pub open spec fn wf(&self) -> bool {
        &&& forall|i: int|
            0 <= i < self.opaque().len() ==> self.kinds().contains_key((#[trigger] self.opaque()[i]).id)
                && !self.kinds()[self.opaque()[i].id]
        &&& forall|j: int|
            0 <= j < self.translucent().len() ==> self.kinds().contains_key(
                (#[trigger] self.translucent()[j]).id,
            ) && self.kinds()[self.translucent()[j].id]
        &&& forall|id: u64| #[trigger]
            self.kinds().contains_key(id) ==> holds_id(self.opaque(), id) || holds_id(
                self.translucent(),
                id,
            )
        &&& distinct(self.opaque())
        &&& distinct(self.translucent())
        &&& forall|i: int, j: int|
            0 <= i < self.opaque().len() && 0 <= j < self.translucent().len() ==> (
            #[trigger] self.opaque()[i]).id != (#[trigger] self.translucent()[j]).id
        &&& forall|i: int| 0 <= i < self.opaque().len() ==> !(#[trigger] self.opaque()[i]).config.alpha
        &&& forall|j: int|
            0 <= j < self.translucent().len() ==> (#[trigger] self.translucent()[j]).config.alpha
    }

    /// A renderer without nodes.
    pub fn new(camera: M) -> (renderer: Renderer<M, U>)
        ensures
            renderer.wf(),
            renderer.opaque().len() == 0,
            renderer.translucent().len() == 0,
            renderer.kinds() == Map::<u64, bool>::empty(),
            renderer.view_camera() == camera,
    {
        Renderer {
            opaque_nodes: Vec::new(),
            translucent_nodes: Vec::new(),
            nodes_by_id: HashMap::new(),
            camera,
        }
    }

    /// The opaque nodes, in the order in which they are drawn.
    pub fn opaque_nodes(&self) -> (nodes: &Vec<RenderNode<M, U>>)
        ensures
            nodes@ == self.opaque(),
    {
        &self.opaque_nodes
    }

    /// The translucent nodes, in the order in which they are drawn.
    pub fn translucent_nodes(&self) -> (nodes: &Vec<RenderNode<M, U>>)
        ensures
            nodes@ == self.translucent(),
    {
        &self.translucent_nodes
    }

    /// The camera.
    pub fn camera(&self) -> (camera: &M)
        ensures
            *camera == self.view_camera(),
    {
        &self.camera
    }

    /// Replaces the camera.
    pub fn set_camera(&mut self, camera: M)
        ensures
            final(self).view_camera() == camera,
            final(self).opaque() == old(self).opaque(),
            final(self).translucent() == old(self).translucent(),
            final(self).kinds() == old(self).kinds(),
    {
        self.camera = camera;
    }

    /// Takes the nodes with id `key` out of both kinds.
    pub fn remove_node(&mut self, key: &u64)
        ensures
            final(self).opaque() == without(old(self).opaque(), *key),
            final(self).translucent() == without(old(self).translucent(), *key),
            final(self).kinds() == old(self).kinds().remove(*key),
            final(self).view_camera() == old(self).view_camera(),
            old(self).wf() ==> final(self).wf(),
    {
        broadcast use vstd::std_specs::hash::group_hash_axioms;

        self.nodes_by_id.remove(key);
        let mut opaque: Vec<RenderNode<M, U>> = Vec::new();
        std::mem::swap(&mut self.opaque_nodes, &mut opaque);
        self.opaque_nodes = drop_node(opaque, *key);
        let mut translucent: Vec<RenderNode<M, U>> = Vec::new();
        std::mem::swap(&mut self.translucent_nodes, &mut translucent);
        self.translucent_nodes = drop_node(translucent, *key);
        proof {
            if old(self).wf() {
                old(self).lemma_kept_wf(self, *key);
            }
        }
    }

    /// Adds a node as the last of its kind: of the translucent nodes if it
    /// is drawn with blending, of the opaque nodes otherwise. A node with the
    /// same id that was there before is taken out first.
    pub fn add_node(&mut self, node: RenderNode<M, U>)
        ensures
            final(self).opaque() == if node.config.alpha {
                without(old(self).opaque(), node.id)
            } else {
                without(old(self).opaque(), node.id).push(node)
            },
            final(self).translucent() == if node.config.alpha {
                without(old(self).translucent(), node.id).push(node)
            } else {
                without(old(self).translucent(), node.id)
            },
            (final(self).opaque(), final(self).translucent()) == shown(
                (old(self).opaque(), old(self).translucent()),
                node,
            ),
            final(self).kinds() == old(self).kinds().insert(node.id, node.config.alpha),
            final(self).view_camera() == old(self).view_camera(),
            old(self).wf() ==> final(self).wf(),
    {
        broadcast use vstd::std_specs::hash::group_hash_axioms;

        self.remove_node(&node.id);
        let ghost removed = *self;
        self.nodes_by_id.insert(node.id, node.config.alpha);
        let ghost between = *self;
        proof {
            assert(self.kinds() =~= old(self).kinds().insert(node.id, node.config.alpha));
        }
        if node.config.alpha {
            self.translucent_nodes.push(node);
        } else {
            self.opaque_nodes.push(node);
        }
        proof {
            if old(self).wf() {
                lemma_without(old(self).opaque(), node.id);
                lemma_without(old(self).translucent(), node.id);
                let opaque = between.opaque();
                let translucent = between.translucent();
                assert forall|i: int| 0 <= i < opaque.len() implies (#[trigger] opaque[i]).id != node.id by {
                    if opaque[i].id == node.id {
                        assert(holds_id(opaque, node.id));
                    }
                }
                assert forall|j: int| 0 <= j < translucent.len() implies (#[trigger] translucent[j]).id
                    != node.id by {
                    if translucent[j].id == node.id {
                        assert(holds_id(translucent, node.id));
                    }
                }
                assert(removed.wf());
                assert forall|i: int| 0 <= i < self.opaque().len() implies self.kinds().contains_key(
                    (#[trigger] self.opaque()[i]).id,
                ) && !self.kinds()[self.opaque()[i].id] by {
                    if i < opaque.len() {
                        assert(self.opaque()[i] == opaque[i]);
                        assert(removed.kinds().contains_key(removed.opaque()[i].id));
                    }
                }
                assert forall|j: int| 0 <= j < self.translucent().len() implies self.kinds().contains_key(
                    (#[trigger] self.translucent()[j]).id,
                ) && self.kinds()[self.translucent()[j].id] by {
                    if j < translucent.len() {
                        assert(self.translucent()[j] == translucent[j]);
                        assert(removed.kinds().contains_key(removed.translucent()[j].id));
                    }
                }
                assert forall|id: u64| #[trigger] self.kinds().contains_key(id) implies holds_id(
                    self.opaque(),
                    id,
                ) || holds_id(self.translucent(), id) by {
                    if id == node.id {
                        if node.config.alpha {
                            assert(self.translucent()[translucent.len() as int].id == id);
                        } else {
                            assert(self.opaque()[opaque.len() as int].id == id);
                        }
                    } else {
                        assert(removed.kinds().contains_key(id));
                        if holds_id(removed.opaque(), id) {
                            let a = choose|a: int|
                                0 <= a < opaque.len() && (#[trigger] opaque[a]).id == id;
                            assert(self.opaque()[a].id == id);
                        } else {
                            let b = choose|b: int|
                                0 <= b < translucent.len() && (#[trigger] translucent[b]).id == id;
                            assert(self.translucent()[b].id == id);
                        }
                    }
                }
            }
        }
    }

    /// Gives the node with id `key` another transform. Without such a node,
    /// which the map of kinds tells at once, nothing changes.
    pub fn set_transform(&mut self, key: &u64, transform: M)
        requires
            old(self).wf(),
        ensures
            final(self).wf(),
            final(self).opaque() == moved(old(self).opaque(), *key, transform),
            final(self).translucent() == moved(old(self).translucent(), *key, transform),
            final(self).kinds() == old(self).kinds(),
            final(self).view_camera() == old(self).view_camera(),
    {
        broadcast use vstd::std_specs::hash::group_hash_axioms;

        if !self.nodes_by_id.contains_key(key) {
            proof {
                assert forall|k: int| 0 <= k < self.opaque().len() implies (
                #[trigger] self.opaque()[k]).id != *key by {}
                assert forall|k: int| 0 <= k < self.translucent().len() implies (
                #[trigger] self.translucent()[k]).id != *key by {}
                assert(self.opaque() =~= moved(old(self).opaque(), *key, transform));
                assert(self.translucent() =~= moved(old(self).translucent(), *key, transform));
                lemma_moved_keeps(old(self).opaque(), *key, transform);
                lemma_moved_keeps(old(self).translucent(), *key, transform);
                old(self).lemma_moved_wf(self, *key, transform);
            }
            return ;
        }
        let mut i: usize = 0;
        while i < self.opaque_nodes.len()
            invariant
                *self == *old(self),
                old(self).wf(),
                i <= self.opaque().len(),
                forall|j: int| 0 <= j < i ==> (#[trigger] self.opaque()[j]).id != *key,
            decreases self.opaque().len() - i,
        {
            if self.opaque_nodes[i].id == *key {
                self.opaque_nodes[i].config.transform = transform;
                proof {
                    let before = old(self).opaque();
                    assert(self.opaque()[i as int] == placed(before[i as int], transform));
                    assert forall|k: int| 0 <= k < before.len() && k != i implies before[k].id != *key by {
                        if k < i {
                            assert(before[k].id != before[i as int].id);
                        } else {
                            assert(before[i as int].id != before[k].id);
                        }
                    }
                    assert forall|k: int| 0 <= k < old(self).translucent().len() implies old(self).translucent()[k].id != *key by {
                        assert(before[i as int].id != old(self).translucent()[k].id);
                    }
                    assert(self.opaque() =~= moved(old(self).opaque(), *key, transform));
                    assert(self.translucent() =~= moved(old(self).translucent(), *key, transform));
                    lemma_moved_keeps(old(self).opaque(), *key, transform);
                    lemma_moved_keeps(old(self).translucent(), *key, transform);
                    old(self).lemma_moved_wf(self, *key, transform);
                }
                return ;
            }
            i += 1;
        }
        let mut j: usize = 0;
        while j < self.translucent_nodes.len()
            invariant
                *self == *old(self),
                old(self).wf(),
                j <= self.translucent().len(),
                forall|k: int| 0 <= k < self.opaque().len() ==> (#[trigger] self.opaque()[k]).id != *key,
                forall|k: int| 0 <= k < j ==> (#[trigger] self.translucent()[k]).id != *key,
            decreases self.translucent().len() - j,
        {
            if self.translucent_nodes[j].id == *key {
                self.translucent_nodes[j].config.transform = transform;
                proof {
                    let before = old(self).translucent();
                    assert(self.translucent()[j as int] == placed(before[j as int], transform));
                    assert forall|k: int| 0 <= k < before.len() && k != j implies before[k].id != *key by {
                        if k < j {
                            assert(before[k].id != before[j as int].id);
                        } else {
                            assert(before[j as int].id != before[k].id);
                        }
                    }
                    assert(self.opaque() =~= moved(old(self).opaque(), *key, transform));
                    assert(self.translucent() =~= moved(old(self).translucent(), *key, transform));
                    lemma_moved_keeps(old(self).opaque(), *key, transform);
                    lemma_moved_keeps(old(self).translucent(), *key, transform);
                    old(self).lemma_moved_wf(self, *key, transform);
                }
                return ;
            }
            j += 1;
        }
        proof {
            assert(self.opaque() =~= moved(old(self).opaque(), *key, transform));
            assert(self.translucent() =~= moved(old(self).translucent(), *key, transform));
            lemma_moved_keeps(old(self).opaque(), *key, transform);
            lemma_moved_keeps(old(self).translucent(), *key, transform);
            old(self).lemma_moved_wf(self, *key, transform);
        }
    }

    /// Giving a node of a sound renderer another transform leaves a sound
    /// renderer.
    proof fn lemma_moved_wf(&self, after: &Self, key: u64, transform: M)
        requires
            self.wf(),
            after.opaque() == moved(self.opaque(), key, transform),
            after.translucent() == moved(self.translucent(), key, transform),
            after.kinds() == self.kinds(),
        ensures
            after.wf(),
    {
        lemma_moved_keeps(self.opaque(), key, transform);
        lemma_moved_keeps(self.translucent(), key, transform);
        assert forall|i: int| 0 <= i < after.opaque().len() implies after.kinds().contains_key(
            (#[trigger] after.opaque()[i]).id,
        ) && !after.kinds()[after.opaque()[i].id] && !after.opaque()[i].config.alpha by {
            assert(self.kinds().contains_key(self.opaque()[i].id));
            assert(!self.opaque()[i].config.alpha);
        }
        assert forall|j: int| 0 <= j < after.translucent().len() implies after.kinds().contains_key(
            (#[trigger] after.translucent()[j]).id,
        ) && after.kinds()[after.translucent()[j].id] && after.translucent()[j].config.alpha by {
            assert(self.kinds().contains_key(self.translucent()[j].id));
            assert(self.translucent()[j].config.alpha);
        }
        assert forall|i: int, j: int| 0 <= i < j < after.opaque().len() implies (
        #[trigger] after.opaque()[i]).id != (#[trigger] after.opaque()[j]).id by {
            assert(self.opaque()[i].id != self.opaque()[j].id);
        }
        assert forall|i: int, j: int| 0 <= i < j < after.translucent().len() implies (
        #[trigger] after.translucent()[i]).id != (#[trigger] after.translucent()[j]).id by {
            assert(self.translucent()[i].id != self.translucent()[j].id);
        }
        assert forall|i: int, j: int|
            0 <= i < after.opaque().len() && 0 <= j < after.translucent().len() implies (
        #[trigger] after.opaque()[i]).id != (#[trigger] after.translucent()[j]).id by {
            assert(self.opaque()[i].id != self.translucent()[j].id);
        }
    }

    /// Taking the nodes with one id out of a sound renderer leaves a sound
    /// renderer.
    proof fn lemma_kept_wf(&self, after: &Self, key: u64)
        requires
            self.wf(),
            after.opaque() == without(self.opaque(), key),
            after.translucent() == without(self.translucent(), key),
            after.kinds() == self.kinds().remove(key),
        ensures
            after.wf(),
    {
        lemma_without(self.opaque(), key);
        lemma_without(self.translucent(), key);
        assert forall|i: int| 0 <= i < after.opaque().len() implies after.kinds().contains_key(
            (#[trigger] after.opaque()[i]).id,
        ) && !after.kinds()[after.opaque()[i].id] by {
            assert(self.opaque().contains(after.opaque()[i]));
            let a = choose|a: int| 0 <= a < self.opaque().len() && self.opaque()[a] == after.opaque()[i];
            assert(self.kinds().contains_key(self.opaque()[a].id));
            if after.opaque()[i].id == key {
                assert(holds_id(after.opaque(), key));
            }
        }
        assert forall|j: int| 0 <= j < after.translucent().len() implies after.kinds().contains_key(
            (#[trigger] after.translucent()[j]).id,
        ) && after.kinds()[after.translucent()[j].id] by {
            assert(self.translucent().contains(after.translucent()[j]));
            let b = choose|b: int|
                0 <= b < self.translucent().len() && self.translucent()[b] == after.translucent()[j];
            assert(self.kinds().contains_key(self.translucent()[b].id));
            if after.translucent()[j].id == key {
                assert(holds_id(after.translucent(), key));
            }
        }
        assert forall|id: u64| #[trigger] after.kinds().contains_key(id) implies holds_id(
            after.opaque(),
            id,
        ) || holds_id(after.translucent(), id) by {
            assert(id != key);
            assert(self.kinds().contains_key(id));
        }
        assert forall|i: int, j: int|
            0 <= i < after.opaque().len() && 0 <= j < after.translucent().len() implies (
        #[trigger] after.opaque()[i]).id != (#[trigger] after.translucent()[j]).id by {
            assert(self.opaque().contains(after.opaque()[i]));
            assert(self.translucent().contains(after.translucent()[j]));
            let a = choose|a: int| 0 <= a < self.opaque().len() && self.opaque()[a] == after.opaque()[i];
            let b = choose|b: int|
                0 <= b < self.translucent().len() && self.translucent()[b] == after.translucent()[j];
            assert(self.opaque()[a].id != self.translucent()[b].id);
        }
        assert forall|i: int| 0 <= i < after.opaque().len() implies !(
        #[trigger] after.opaque()[i]).config.alpha by {
            assert(self.opaque().contains(after.opaque()[i]));
            let a = choose|a: int| 0 <= a < self.opaque().len() && self.opaque()[a] == after.opaque()[i];
            assert(!self.opaque()[a].config.alpha);
        }
        assert forall|j: int| 0 <= j < after.translucent().len() implies (
        #[trigger] after.translucent()[j]).config.alpha by {
            assert(self.translucent().contains(after.translucent()[j]));
            let b = choose|b: int|
                0 <= b < self.translucent().len() && self.translucent()[b] == after.translucent()[j];
            assert(self.translucent()[b].config.alpha);
        }
    }
}

} // verus!
