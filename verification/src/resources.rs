//! The resources of a session, resolved stage by stage.
//!
//! A mesh descriptor leads to a decoded mesh and from there to an uploaded
//! mesh; a shader descriptor leads to a linked program; mesh and shader
//! together lead to a vertex array; a texture descriptor leads to a decoded
//! image and from there to an uploaded texture; program, vertex array and
//! textures together make a bundle that is ready to draw. Every stage has a
//! cache of its own, so that whatever two requests have in common is
//! constructed once.
//!
//! Decoding and linking are not done here. A request that needs one of them
//! adds a job to the list of open jobs; whoever runs the session takes the
//! jobs, does the work and settles the promise of each job.

use crate::cache::{requested, Cache};
use crate::descriptor::{views_of, Descriptor, DescriptorView};
use crate::pon_to_resource::{
    mesh_shape, pon_to_mesh, pon_to_shader, pon_to_texture, shader_shape, texture_shape, MeshSource,
    ShaderSource, ShapeError, ShapeFault, TextureSource,
};
use crate::promise::{
    indices_of, total_assemble, total_transform, Failure, Promise, PromiseGraph, PromiseValue, SettleError, Source,
};
use crate::worker::{awaiting, AsyncPromise, AsyncRunner, Message};
use std::sync::mpsc::Receiver;
use vstd::prelude::*;

verus! {

/// The kind of work that a job asks for.
#[derive(Clone, Copy, PartialEq, Eq, Structural, Debug)]
pub enum JobKind {
    /// Read, compile and link the shader program that the descriptor names.
    ShaderProgram,
    /// Decode the mesh that the descriptor names.
    Mesh,
    /// Decode the image that the descriptor names.
    Texture,
}

/// What a job is to construct, as read off its descriptor.
#[derive(Debug)]
pub enum JobSource {
    ShaderProgram(ShaderSource),
    Mesh(MeshSource),
    Texture(TextureSource),
}

/// Work to be done outside: construct what the descriptor names, then
/// settle the promise with it. The descriptor has the shape of its kind,
/// and `source` is what it asks for.
pub struct Job {
    pub kind: JobKind,
    pub descriptor: Descriptor,
    pub promise: Promise,
    pub source: JobSource,
}

/// The tree has the shape of a descriptor of this kind.
pub open spec fn shape_ok(kind: JobKind, key: DescriptorView) -> bool {
    match kind {
        JobKind::ShaderProgram => shader_shape(key) is Ok,
        JobKind::Mesh => mesh_shape(key) is Ok,
        JobKind::Texture => texture_shape(key) is Ok,
    }
}

/// The source is what a descriptor `key` of this kind asks for.
pub open spec fn fits_source(kind: JobKind, key: DescriptorView, source: JobSource) -> bool {
    match source {
        JobSource::ShaderProgram(shader) => kind == JobKind::ShaderProgram && shader_shape(key)
            == Ok::<_, ShapeFault>((shader.vertex@, shader.fragment@)),
        JobSource::Mesh(mesh) => kind == JobKind::Mesh && mesh_shape(key) == Ok::<_, ShapeFault>(
            mesh@,
        ),
        JobSource::Texture(texture) => kind == JobKind::Texture && texture_shape(key) == Ok::<
            _,
            ShapeFault,
        >(texture@),
    }
}

impl Job {
    /// Whether the work may block and is to be done by a worker: that is
    /// so for a texture that comes from a file. Everything else is
    /// constructed on the thread that owns the graphics context.
    pub fn on_worker(&self) -> (blocking: bool)
        ensures
            blocking == (self.source matches JobSource::Texture(TextureSource::File { .. })),
    {
        match &self.source {
            JobSource::Texture(TextureSource::File { .. }) => true,
            _ => false,
        }
    }
}

/// What a descriptor of this kind asks for.
fn read_source(kind: JobKind, key: &Descriptor) -> (source: JobSource)
    requires
        shape_ok(kind, key@),
    ensures
        fits_source(kind, key@, source),
{
    match kind {
        JobKind::ShaderProgram => match pon_to_shader(key) {
            Ok(shader) => JobSource::ShaderProgram(shader),
            Err(_) => vstd::pervasive::unreached(),
        },
        JobKind::Mesh => match pon_to_mesh(key) {
            Ok(mesh) => JobSource::Mesh(mesh),
            Err(_) => vstd::pervasive::unreached(),
        },
        JobKind::Texture => match pon_to_texture(key) {
            Ok(texture) => JobSource::Texture(texture),
            Err(_) => vstd::pervasive::unreached(),
        },
    }
}

/// What each cache holds, stage by stage.
pub ghost struct Layers {
    pub programs: Map<DescriptorView, Promise>,
    pub meshes: Map<DescriptorView, Promise>,
    pub gl_meshes: Map<DescriptorView, Promise>,
    pub vertex_arrays: Map<DescriptorView, Promise>,
    pub textures: Map<DescriptorView, Promise>,
    pub gl_textures: Map<DescriptorView, Promise>,
    pub bundles: Map<DescriptorView, Promise>,
}

/// The key of a vertex array: its mesh, then its shader.
pub open spec fn pair_key(mesh: DescriptorView, shader: DescriptorView) -> DescriptorView {
    DescriptorView::Sequence(seq![mesh, shader])
}

/// The key of a bundle: its mesh, its shader, then its textures.
pub open spec fn bundle_key(
    mesh: DescriptorView,
    shader: DescriptorView,
    textures: Seq<DescriptorView>,
) -> DescriptorView {
    DescriptorView::Sequence(seq![mesh, shader, DescriptorView::Sequence(textures)])
}

/// The promises that a bundle is made of: its program, its vertex array,
/// then the uploaded texture of each key, in the order of the keys.
pub open spec fn bundle_inputs(
    program: Promise,
    vertex_array: Promise,
    gl_textures: Map<DescriptorView, Promise>,
    textures: Seq<DescriptorView>,
) -> Seq<usize> {
    seq![program.index, vertex_array.index] + Seq::new(
        textures.len(),
        |i: int| gl_textures[textures[i]].index,
    )
}

/// Every promise of the layer is a root of the graph.
pub open spec fn root_layer<T, F: Fn(&T) -> T, J: Fn(Vec<&T>) -> T>(
    graph: &PromiseGraph<T, F, J>,
    layer: Map<DescriptorView, Promise>,
) -> bool {
    forall|key: DescriptorView| #[trigger]
        layer.contains_key(key) ==> graph.contains(layer[key])
            && graph.sources()[layer[key].index as int] is Root
}

/// Every promise of the upper layer is the image, under `transform`, of the
/// promise that the lower layer holds for the same key.
pub open spec fn then_layer<T, F: Fn(&T) -> T, J: Fn(Vec<&T>) -> T>(
    graph: &PromiseGraph<T, F, J>,
    upper: Map<DescriptorView, Promise>,
    lower: Map<DescriptorView, Promise>,
    transform: F,
) -> bool {
    forall|key: DescriptorView| #[trigger]
        upper.contains_key(key) ==> lower.contains_key(key) && graph.contains(upper[key])
            && graph.sources()[upper[key].index as int] == (Source::<F, J>::Then {
            parent: lower[key].index,
            transform,
        })
}

/// Every vertex array is the join of the program of its shader and the
/// uploaded mesh of its mesh, put together by `build`.
pub open spec fn pair_layer<T, F: Fn(&T) -> T, J: Fn(Vec<&T>) -> T>(
    graph: &PromiseGraph<T, F, J>,
    layers: Layers,
    build: J,
) -> bool {
    forall|mesh: DescriptorView, shader: DescriptorView| #[trigger]
        layers.vertex_arrays.contains_key(pair_key(mesh, shader)) ==> {
            let joined = layers.vertex_arrays[pair_key(mesh, shader)];
            &&& layers.programs.contains_key(shader)
            &&& layers.gl_meshes.contains_key(mesh)
            &&& graph.contains(joined)
            &&& graph.sources()[joined.index as int] is Join
            &&& graph.sources()[joined.index as int]->inputs@ == seq![
                layers.programs[shader].index,
                layers.gl_meshes[mesh].index,
            ]
            &&& graph.sources()[joined.index as int]->assemble == build
        }
}

/// Every bundle is the join of its program, its vertex array and its
/// uploaded textures, put together by `assemble`.
pub open spec fn bundle_layer<T, F: Fn(&T) -> T, J: Fn(Vec<&T>) -> T>(
    graph: &PromiseGraph<T, F, J>,
    layers: Layers,
    assemble: J,
) -> bool {
    forall|mesh: DescriptorView, shader: DescriptorView, textures: Seq<DescriptorView>| #[trigger]
        layers.bundles.contains_key(bundle_key(mesh, shader, textures)) ==> {
            let joined = layers.bundles[bundle_key(mesh, shader, textures)];
            &&& layers.programs.contains_key(shader)
            &&& layers.vertex_arrays.contains_key(pair_key(mesh, shader))
            &&& forall|i: int|
                0 <= i < textures.len() ==> layers.gl_textures.contains_key(#[trigger] textures[i])
            &&& graph.contains(joined)
            &&& graph.sources()[joined.index as int] is Join
            &&& graph.sources()[joined.index as int]->inputs@ == bundle_inputs(
                layers.programs[shader],
                layers.vertex_arrays[pair_key(mesh, shader)],
                layers.gl_textures,
                textures,
            )
            &&& graph.sources()[joined.index as int]->assemble == assemble
        }
}

/// The promise of a root stage: the one in the cache, or else a new pending
/// root, entered in the cache and announced by a job of the given kind with
/// what the descriptor asks for.
fn root_stage<T, F: Fn(&T) -> T, J: Fn(Vec<&T>) -> T>(
    cache: &mut Cache,
    graph: &mut PromiseGraph<T, F, J>,
    jobs: &mut Vec<Job>,
    kind: JobKind,
    key: &Descriptor,
) -> (promise: Promise)
    requires
        old(cache).wf(),
        old(graph).wf(),
        root_layer(old(graph), old(cache)@),
        !old(cache)@.contains_key(key@) ==> shape_ok(kind, key@),
    ensures
        final(cache).wf(),
        final(graph).wf(),
        final(graph).extends(old(graph)),
        root_layer(final(graph), final(cache)@),
        requested(old(cache)@, key@, promise, final(cache)@),
        old(cache)@.contains_key(key@) ==> final(graph).cells().len() == old(graph).cells().len()
            && final(jobs)@ == old(jobs)@,
        !old(cache)@.contains_key(key@) ==> {
            &&& promise.index == old(graph).cells().len()
            &&& final(graph).cells().len() == old(graph).cells().len() + 1
            &&& final(graph).pending(promise.index as int)
            &&& final(jobs)@.len() == old(jobs)@.len() + 1
            &&& final(jobs)@.subrange(0, old(jobs)@.len() as int) == old(jobs)@
            &&& final(jobs)@.last().kind == kind
            &&& final(jobs)@.last().descriptor@ == key@
            &&& final(jobs)@.last().promise == promise
            &&& fits_source(kind, key@, final(jobs)@.last().source)
        },
{
    match cache.get(key) {
        Some(promise) => {
            proof {
                assert(final(graph).extends(old(graph)));
            }
            promise
        },
        None => {
            let source = read_source(kind, key);
            let promise = Promise::new(graph);
            cache.insert(key.clone(), promise);
            jobs.push(Job { kind, descriptor: key.clone(), promise, source });
            proof {
                assert(jobs@.subrange(0, old(jobs)@.len() as int) =~= old(jobs)@);
                assert forall|k: DescriptorView| #[trigger] cache@.contains_key(k) implies graph.contains(
                    cache@[k],
                ) && graph.sources()[cache@[k].index as int] is Root by {
                    if k != key@ {
                        assert(old(cache)@.contains_key(k));
                    }
                }
            }
            promise
        },
    }
}

/// The promise of a derived stage: the one in the cache, or else the image
/// of `parent` under `transform`, entered in the cache.
fn then_stage<T, F: Fn(&T) -> T, J: Fn(Vec<&T>) -> T>(
    cache: &mut Cache,
    graph: &mut PromiseGraph<T, F, J>,
    key: &Descriptor,
    parent: Promise,
    transform: F,
) -> (promise: Promise)
    requires
        old(cache).wf(),
        old(graph).wf(),
        old(graph).contains(parent),
        total_transform::<T, F>(transform),
    ensures
        final(cache).wf(),
        final(graph).wf(),
        final(graph).extends(old(graph)),
        requested(old(cache)@, key@, promise, final(cache)@),
        old(cache)@.contains_key(key@) ==> final(graph).cells().len() == old(graph).cells().len(),
        !old(cache)@.contains_key(key@) ==> {
            &&& promise.index == old(graph).cells().len()
            &&& final(graph).cells().len() == old(graph).cells().len() + 1
            &&& final(graph).sources()[promise.index as int] == (Source::<F, J>::Then {
                parent: parent.index,
                transform,
            })
        },
{
    match cache.get(key) {
        Some(promise) => {
            proof {
                assert(final(graph).extends(old(graph)));
            }
            promise
        },
        None => {
            let promise = graph.chain(parent, transform);
            cache.insert(key.clone(), promise);
            promise
        },
    }
}


/// The promise of a join stage: the one in the cache, or else the join of
/// `inputs` under `assemble`, entered in the cache.
fn join_stage<T, F: Fn(&T) -> T, J: Fn(Vec<&T>) -> T>(
    cache: &mut Cache,
    graph: &mut PromiseGraph<T, F, J>,
    key: Descriptor,
    inputs: &Vec<Promise>,
    assemble: J,
) -> (promise: Promise)
    requires
        old(cache).wf(),
        old(graph).wf(),
        forall|i: int| 0 <= i < inputs@.len() ==> old(graph).contains(#[trigger] inputs@[i]),
        total_assemble::<T, J>(assemble),
    ensures
        final(cache).wf(),
        final(graph).wf(),
        final(graph).extends(old(graph)),
        requested(old(cache)@, key@, promise, final(cache)@),
        old(cache)@.contains_key(key@) ==> final(graph).cells().len() == old(graph).cells().len(),
        !old(cache)@.contains_key(key@) ==> {
            &&& promise.index == old(graph).cells().len()
            &&& final(graph).cells().len() == old(graph).cells().len() + 1
            &&& final(graph).sources()[promise.index as int] is Join
            &&& final(graph).sources()[promise.index as int]->inputs@ == indices_of(inputs@)
            &&& final(graph).sources()[promise.index as int]->assemble == assemble
        },
{
    match cache.get(&key) {
        Some(promise) => {
            proof {
                assert(final(graph).extends(old(graph)));
            }
            promise
        },
        None => {
            let promise = Promise::join(graph, inputs, assemble);
            cache.insert(key, promise);
            promise
        },
    }
}

/// What is at fault with a key that is asked of a root stage: nothing if
/// the stage holds the key already, and else whatever keeps the key from
/// having the shape of its kind.
pub open spec fn key_fault(
    layer: Map<DescriptorView, Promise>,
    kind: JobKind,
    key: DescriptorView,
) -> Option<ShapeFault> {
    if layer.contains_key(key) {
        None
    } else {
        match kind {
            JobKind::ShaderProgram => match shader_shape(key) {
                Ok(_) => None,
                Err(fault) => Some(fault),
            },
            JobKind::Mesh => match mesh_shape(key) {
                Ok(_) => None,
                Err(fault) => Some(fault),
            },
            JobKind::Texture => match texture_shape(key) {
                Ok(_) => None,
                Err(fault) => Some(fault),
            },
        }
    }
}

/// The fault of the first of the texture keys that has one.
pub open spec fn textures_fault(
    layer: Map<DescriptorView, Promise>,
    keys: Seq<DescriptorView>,
) -> Option<ShapeFault>
    decreases keys.len(),
{
    if keys.len() == 0 {
        None
    } else {
        match key_fault(layer, JobKind::Texture, keys[0]) {
            Some(fault) => Some(fault),
            None => textures_fault(layer, keys.skip(1)),
        }
    }
}

/// What is at fault with a request for a bundle: the fault of the shader,
/// or else that of the mesh, or else that of the first texture that has
/// one. Keys that their stage holds already are not looked at again.
pub open spec fn request_fault(
    layers: Layers,
    mesh: DescriptorView,
    shader: DescriptorView,
    textures: Seq<DescriptorView>,
) -> Option<ShapeFault> {
    match key_fault(layers.programs, JobKind::ShaderProgram, shader) {
        Some(fault) => Some(fault),
        None => match key_fault(layers.meshes, JobKind::Mesh, mesh) {
            Some(fault) => Some(fault),
            None => textures_fault(layers.textures, textures),
        },
    }
}

/// Where no texture key has a fault, each of them is held by the stage or
/// has the shape of a texture.
pub proof fn lemma_textures_sound(layer: Map<DescriptorView, Promise>, keys: Seq<DescriptorView>)
    requires
        textures_fault(layer, keys) is None,
    ensures
        forall|i: int|
            0 <= i < keys.len() ==> layer.contains_key(#[trigger] keys[i]) || texture_shape(keys[i]) is Ok,
    decreases keys.len(),
{
    if keys.len() > 0 {
        lemma_textures_sound(layer, keys.skip(1));
        assert forall|i: int| 0 <= i < keys.len() implies layer.contains_key(#[trigger] keys[i])
            || texture_shape(keys[i]) is Ok by {
            if i > 0 {
                assert(keys.skip(1)[i - 1] == keys[i]);
            }
        }
    }
}

/// What is at fault with a key that is asked of a root stage.
fn find_key_fault(cache: &Cache, kind: JobKind, key: &Descriptor) -> (fault: Option<ShapeError>)
    requires
        cache.wf(),
    ensures
        fault is None <==> key_fault(cache@, kind, key@) is None,
        fault matches Some(error) ==> key_fault(cache@, kind, key@) == Some(error@),
{
    if cache.get(key).is_some() {
        return None;
    }
    match kind {
        JobKind::ShaderProgram => match pon_to_shader(key) {
            Ok(_) => None,
            Err(error) => Some(error),
        },
        JobKind::Mesh => match pon_to_mesh(key) {
            Ok(_) => None,
            Err(error) => Some(error),
        },
        JobKind::Texture => match pon_to_texture(key) {
            Ok(_) => None,
            Err(error) => Some(error),
        },
    }
}

/// The caches, one for each stage.
pub ghost enum Stage {
    Programs,
    Meshes,
    GlMeshes,
    VertexArrays,
    Textures,
    GlTextures,
    Bundles,
}

/// What the cache of the stage holds.
pub open spec fn stage_of(layers: Layers, stage: Stage) -> Map<DescriptorView, Promise> {
    match stage {
        Stage::Programs => layers.programs,
        Stage::Meshes => layers.meshes,
        Stage::GlMeshes => layers.gl_meshes,
        Stage::VertexArrays => layers.vertex_arrays,
        Stage::Textures => layers.textures,
        Stage::GlTextures => layers.gl_textures,
        Stage::Bundles => layers.bundles,
    }
}

/// The stage has gained the key, and holds the promise for it.
pub open spec fn entered(
    before: Layers,
    after: Layers,
    stage: Stage,
    key: DescriptorView,
    promise: Promise,
) -> bool {
    &&& !stage_of(before, stage).contains_key(key)
    &&& stage_of(after, stage).contains_key(key)
    &&& stage_of(after, stage)[key] == promise
}

/// The promise is that of a key that some stage has gained.
pub open spec fn newly_cached(before: Layers, after: Layers, promise: Promise) -> bool {
    exists|stage: Stage, key: DescriptorView| #[trigger] entered(before, after, stage, key, promise)
}

/// One if the map lacks the key, and nothing if it holds it: by so much a
/// request for the key makes the graph grow at this stage.
pub open spec fn grown(layer: Map<DescriptorView, Promise>, key: DescriptorView) -> int {
    if layer.contains_key(key) {
        0
    } else {
        1
    }
}

/// The cache of the root stage that jobs of this kind are for.
pub open spec fn layer_of(layers: Layers, kind: JobKind) -> Map<DescriptorView, Promise> {
    match kind {
        JobKind::ShaderProgram => layers.programs,
        JobKind::Mesh => layers.meshes,
        JobKind::Texture => layers.textures,
    }
}

/// The jobs are those that lead from `before` to `after`: one job for each
/// key that a root stage has gained, with the promise that the stage now
/// holds for it and with what the key asks for, and no job besides.
pub open spec fn jobs_match(jobs: Seq<Job>, before: Layers, after: Layers) -> bool {
    &&& forall|i: int|
        0 <= i < jobs.len() ==> {
            let job = #[trigger] jobs[i];
            &&& !layer_of(before, job.kind).contains_key(job.descriptor@)
            &&& layer_of(after, job.kind).contains_key(job.descriptor@)
            &&& layer_of(after, job.kind)[job.descriptor@] == job.promise
            &&& fits_source(job.kind, job.descriptor@, job.source)
        }
    &&& forall|kind: JobKind, key: DescriptorView| #[trigger]
        layer_of(after, kind).contains_key(key) && !layer_of(before, kind).contains_key(key)
            ==> exists|i: int|
            0 <= i < jobs.len() && (#[trigger] jobs[i]).kind == kind && jobs[i].descriptor@ == key
    &&& forall|i: int, j: int|
        0 <= i < j < jobs.len() ==> !((#[trigger] jobs[i]).kind == (#[trigger] jobs[j]).kind
            && jobs[i].descriptor@ == jobs[j].descriptor@)
}

/// The map `after` holds what `before` holds.
pub open spec fn grows(
    before: Map<DescriptorView, Promise>,
    after: Map<DescriptorView, Promise>,
) -> bool {
    forall|key: DescriptorView| #[trigger]
        before.contains_key(key) ==> after.contains_key(key) && after[key] == before[key]
}

/// Every cache of `after` holds what it held in `before`.
pub open spec fn layers_grow(before: Layers, after: Layers) -> bool {
    &&& grows(before.programs, after.programs)
    &&& grows(before.meshes, after.meshes)
    &&& grows(before.gl_meshes, after.gl_meshes)
    &&& grows(before.vertex_arrays, after.vertex_arrays)
    &&& grows(before.textures, after.textures)
    &&& grows(before.gl_textures, after.gl_textures)
    &&& grows(before.bundles, after.bundles)
}

/// The keys among `views`.
pub open spec fn keys_of(views: Seq<DescriptorView>) -> Set<DescriptorView> {
    Set::new(|key: DescriptorView| exists|i: int| 0 <= i < views.len() && #[trigger] views[i] == key)
}

/// Whatever `after` holds beyond `before` is among `keys`.
pub open spec fn gained(
    before: Map<DescriptorView, Promise>,
    after: Map<DescriptorView, Promise>,
    keys: Set<DescriptorView>,
) -> bool {
    forall|key: DescriptorView| #[trigger]
        after.contains_key(key) ==> before.contains_key(key) || keys.contains(key)
}

/// The resources of a session: the promises, the cache of each stage, the
/// open jobs, the awaited results of workers, and the constructors of the
/// derived stages.
#[verifier::reject_recursive_types(T)]
pub struct Resources<T, F, J> {
    graph: PromiseGraph<T, F, J>,
    gl_shader_programs: Cache,
    meshes: Cache,
    gl_meshes: Cache,
    gl_vertex_arrays: Cache,
    textures: Cache,
    gl_textures: Cache,
    bundles: Cache,
    jobs: Vec<Job>,
    async_runner: AsyncRunner<T>,
    upload_mesh: F,
    upload_texture: F,
    build_vertex_array: J,
    assemble_bundle: J,
}

impl<T, F: Fn(&T) -> T + Copy, J: Fn(Vec<&T>) -> T + Copy> Resources<T, F, J> {
    /// The promises.
    pub closed spec fn graph(&self) -> PromiseGraph<T, F, J> {
        self.graph
    }

    /// What each cache holds.
    pub closed spec fn layers(&self) -> Layers {
        Layers {
            programs: self.gl_shader_programs@,
            meshes: self.meshes@,
            gl_meshes: self.gl_meshes@,
            vertex_arrays: self.gl_vertex_arrays@,
            textures: self.textures@,
            gl_textures: self.gl_textures@,
            bundles: self.bundles@,
        }
    }

    /// The open jobs, from the oldest to the youngest.
    pub closed spec fn jobs(&self) -> Seq<Job> {
        self.jobs@
    }

    /// The results of workers that are awaited.
    pub closed spec fn runner(&self) -> AsyncRunner<T> {
        self.async_runner
    }

    /// The transform that uploads a decoded mesh.
    pub closed spec fn upload_mesh(&self) -> F {
        self.upload_mesh
    }

    /// The transform that uploads a decoded image.
    pub closed spec fn upload_texture(&self) -> F {
        self.upload_texture
    }

    /// The assembler that builds a vertex array from a program and an
    /// uploaded mesh.
    pub closed spec fn build_vertex_array(&self) -> J {
        self.build_vertex_array
    }

    /// The assembler that makes a bundle of a program, a vertex array and
    /// uploaded textures.
    pub closed spec fn assemble_bundle(&self) -> J {
        self.assemble_bundle
    }

    /// No cache holds a key twice.
    pub closed spec fn caches_wf(&self) -> bool {
        &&& self.gl_shader_programs.wf()
        &&& self.meshes.wf()
        &&& self.gl_meshes.wf()
        &&& self.gl_vertex_arrays.wf()
        &&& self.textures.wf()
        &&& self.gl_textures.wf()
        &&& self.bundles.wf()
    }

    /// The constructors accept every argument.
    pub open spec fn constructors_total(&self) -> bool {
        &&& total_transform::<T, F>(self.upload_mesh())
        &&& total_transform::<T, F>(self.upload_texture())
        &&& total_assemble::<T, J>(self.build_vertex_array())
        &&& total_assemble::<T, J>(self.assemble_bundle())
    }

    /// The graph and the caches are sound, and every cached promise is what
    /// its stage says: programs, meshes and textures are roots; an uploaded
    /// mesh or texture is the image of the decoded one for the same key; a
    /// vertex array is the join of its program and its uploaded mesh; a
    /// bundle is the join of its program, its vertex array and its uploaded
    /// textures.
    pub open spec fn wf(&self) -> bool {
        &&& self.graph().wf()
        &&& self.caches_wf()
        &&& self.constructors_total()
        &&& self.runner().within(&self.graph())
        &&& root_layer(&self.graph(), self.layers().programs)
        &&& root_layer(&self.graph(), self.layers().meshes)
        &&& root_layer(&self.graph(), self.layers().textures)
        &&& then_layer(
            &self.graph(),
            self.layers().gl_meshes,
            self.layers().meshes,
            self.upload_mesh(),
        )
        &&& then_layer(
            &self.graph(),
            self.layers().gl_textures,
            self.layers().textures,
            self.upload_texture(),
        )
        &&& pair_layer(&self.graph(), self.layers(), self.build_vertex_array())
        &&& bundle_layer(&self.graph(), self.layers(), self.assemble_bundle())
    }

    /// The constructors and the awaited results are those of `before`.
    pub open spec fn same_constructors(&self, before: &Self) -> bool {
        &&& self.runner() == before.runner()
        &&& self.upload_mesh() == before.upload_mesh()
        &&& self.upload_texture() == before.upload_texture()
        &&& self.build_vertex_array() == before.build_vertex_array()
        &&& self.assemble_bundle() == before.assemble_bundle()
    }

    /// What a request leaves behind: the graph and the caches have grown,
    /// the graph by nothing but promises of keys that some cache has
    /// gained, and the open jobs by exactly the jobs for what the root
    /// stages have gained, each with a pending promise.
    pub open spec fn follows(&self, before: &Self) -> bool {
        &&& self.same_constructors(before)
        &&& self.graph().extends(&before.graph())
        &&& layers_grow(before.layers(), self.layers())
        &&& before.jobs().len() <= self.jobs().len()
        &&& self.jobs().subrange(0, before.jobs().len() as int) == before.jobs()
        &&& jobs_match(
            self.jobs().subrange(before.jobs().len() as int, self.jobs().len() as int),
            before.layers(),
            self.layers(),
        )
        &&& forall|i: int|
            before.jobs().len() <= i < self.jobs().len() ==> before.graph().cells().len() <= (
            #[trigger] self.jobs()[i]).promise.index < self.graph().cells().len()
                && self.graph().pending(self.jobs()[i].promise.index as int)
        &&& forall|promise: Promise|
            before.graph().cells().len() <= promise.index < self.graph().cells().len()
                ==> #[trigger] newly_cached(before.layers(), self.layers(), promise)
    }

    /// Resources without promises, cache entries or jobs.
    pub fn new(upload_mesh: F, upload_texture: F, build_vertex_array: J, assemble_bundle: J) -> (made:
        Resources<T, F, J>)
        requires
            total_transform::<T, F>(upload_mesh),
            total_transform::<T, F>(upload_texture),
            total_assemble::<T, J>(build_vertex_array),
            total_assemble::<T, J>(assemble_bundle),
        ensures
            made.wf(),
            made.graph().cells().len() == 0,
            made.jobs().len() == 0,
            made.runner().tasks().len() == 0,
            made.layers().programs == Map::<DescriptorView, Promise>::empty(),
            made.layers().meshes == Map::<DescriptorView, Promise>::empty(),
            made.layers().gl_meshes == Map::<DescriptorView, Promise>::empty(),
            made.layers().vertex_arrays == Map::<DescriptorView, Promise>::empty(),
            made.layers().textures == Map::<DescriptorView, Promise>::empty(),
            made.layers().gl_textures == Map::<DescriptorView, Promise>::empty(),
            made.layers().bundles == Map::<DescriptorView, Promise>::empty(),
            made.upload_mesh() == upload_mesh,
            made.upload_texture() == upload_texture,
            made.build_vertex_array() == build_vertex_array,
            made.assemble_bundle() == assemble_bundle,
    {
        Resources {
            graph: PromiseGraph::new(),
            gl_shader_programs: Cache::new(),
            meshes: Cache::new(),
            gl_meshes: Cache::new(),
            gl_vertex_arrays: Cache::new(),
            textures: Cache::new(),
            gl_textures: Cache::new(),
            bundles: Cache::new(),
            jobs: Vec::new(),
            async_runner: AsyncRunner::new(),
            upload_mesh,
            upload_texture,
            build_vertex_array,
            assemble_bundle,
        }
    }
}


impl<T, F: Fn(&T) -> T + Copy, J: Fn(Vec<&T>) -> T + Copy> Resources<T, F, J> {
    /// The promise of the linked program that the shader descriptor names.
    /// A descriptor that is new to the cache gets a pending promise and a
    /// job.
    fn program(&mut self, key: &Descriptor) -> (promise: Promise)
        requires
            old(self).wf(),
            !old(self).layers().programs.contains_key(key@) ==> shader_shape(key@) is Ok,
        ensures
            final(self).wf(),
            final(self).follows(old(self)),
            final(self).graph().cells().len() == old(self).graph().cells().len() + grown(
                old(self).layers().programs,
                key@,
            ),
            final(self).jobs().len() == old(self).jobs().len() + grown(old(self).layers().programs, key@),
            requested(old(self).layers().programs, key@, promise, final(self).layers().programs),
            final(self).layers().programs.contains_key(key@),
            final(self).layers().programs[key@] == promise,
            final(self).graph().contains(promise),
            final(self).layers() == (Layers {
                programs: final(self).layers().programs,
                ..old(self).layers()
            }),
    {
        let promise = root_stage(
            &mut self.gl_shader_programs,
            &mut self.graph,
            &mut self.jobs,
            JobKind::ShaderProgram,
            key,
        );
        proof {
            self.lemma_root_stage_follows(old(self), JobKind::ShaderProgram, key@, promise);
        }
        promise
    }

    /// The promise of the decoded mesh that the descriptor names. A
    /// descriptor that is new to the cache gets a pending promise and a job.
    fn mesh(&mut self, key: &Descriptor) -> (promise: Promise)
        requires
            old(self).wf(),
            !old(self).layers().meshes.contains_key(key@) ==> mesh_shape(key@) is Ok,
        ensures
            final(self).wf(),
            final(self).follows(old(self)),
            final(self).graph().cells().len() == old(self).graph().cells().len() + grown(
                old(self).layers().meshes,
                key@,
            ),
            final(self).jobs().len() == old(self).jobs().len() + grown(old(self).layers().meshes, key@),
            requested(old(self).layers().meshes, key@, promise, final(self).layers().meshes),
            final(self).layers().meshes.contains_key(key@),
            final(self).layers().meshes[key@] == promise,
            final(self).graph().contains(promise),
            final(self).layers() == (Layers {
                meshes: final(self).layers().meshes,
                ..old(self).layers()
            }),
    {
        let promise = root_stage(
            &mut self.meshes,
            &mut self.graph,
            &mut self.jobs,
            JobKind::Mesh,
            key,
        );
        proof {
            self.lemma_root_stage_follows(old(self), JobKind::Mesh, key@, promise);
        }
        promise
    }

    /// The promise of the decoded image that the descriptor names. A
    /// descriptor that is new to the cache gets a pending promise and a job.
    fn texture(&mut self, key: &Descriptor) -> (promise: Promise)
        requires
            old(self).wf(),
            !old(self).layers().textures.contains_key(key@) ==> texture_shape(key@) is Ok,
        ensures
            final(self).wf(),
            final(self).follows(old(self)),
            final(self).graph().cells().len() == old(self).graph().cells().len() + grown(
                old(self).layers().textures,
                key@,
            ),
            final(self).jobs().len() == old(self).jobs().len() + grown(old(self).layers().textures, key@),
            requested(old(self).layers().textures, key@, promise, final(self).layers().textures),
            final(self).layers().textures.contains_key(key@),
            final(self).layers().textures[key@] == promise,
            final(self).graph().contains(promise),
            final(self).layers() == (Layers {
                textures: final(self).layers().textures,
                ..old(self).layers()
            }),
    {
        let promise = root_stage(
            &mut self.textures,
            &mut self.graph,
            &mut self.jobs,
            JobKind::Texture,
            key,
        );
        proof {
            self.lemma_root_stage_follows(old(self), JobKind::Texture, key@, promise);
        }
        promise
    }

    /// What a root stage leaves behind is sound and follows what was
    /// before.
    proof fn lemma_root_stage_follows(&self, before: &Self, kind: JobKind, key: DescriptorView, promise: Promise)
        requires
            before.wf(),
            self.caches_wf(),
            self.same_constructors(before),
            self.graph().wf(),
            self.graph().extends(&before.graph()),
            root_layer(&self.graph(), layer_of(self.layers(), kind)),
            requested(layer_of(before.layers(), kind), key, promise, layer_of(self.layers(), kind)),
            self.layers() == match kind {
                JobKind::ShaderProgram => Layers {
                    programs: self.layers().programs,
                    ..before.layers()
                },
                JobKind::Mesh => Layers { meshes: self.layers().meshes, ..before.layers() },
                JobKind::Texture => Layers { textures: self.layers().textures, ..before.layers() },
            },
            layer_of(before.layers(), kind).contains_key(key) ==> self.graph().cells().len()
                == before.graph().cells().len() && self.jobs() == before.jobs(),
            !layer_of(before.layers(), kind).contains_key(key) ==> {
                &&& promise.index == before.graph().cells().len()
                &&& self.graph().cells().len() == before.graph().cells().len() + 1
                &&& self.graph().pending(promise.index as int)
                &&& self.jobs().len() == before.jobs().len() + 1
                &&& self.jobs().subrange(0, before.jobs().len() as int) == before.jobs()
                &&& self.jobs().last().kind == kind
                &&& self.jobs().last().descriptor@ == key
                &&& self.jobs().last().promise == promise
                &&& fits_source(kind, key, self.jobs().last().source)
            },
        ensures
            self.wf(),
            self.follows(before),
    {
        let new_jobs = self.jobs().subrange(before.jobs().len() as int, self.jobs().len() as int);
        if layer_of(before.layers(), kind).contains_key(key) {
            assert(self.layers() == before.layers());
            assert(self.jobs().subrange(0, before.jobs().len() as int) =~= before.jobs());
        } else {
            assert(new_jobs.len() == 1);
            assert(new_jobs[0] == self.jobs().last());
            let stage = match kind {
                JobKind::ShaderProgram => Stage::Programs,
                JobKind::Mesh => Stage::Meshes,
                JobKind::Texture => Stage::Textures,
            };
            assert(entered(before.layers(), self.layers(), stage, key, promise));
            assert forall|k: JobKind, other: DescriptorView| #[trigger]
                layer_of(self.layers(), k).contains_key(other) && !layer_of(
                    before.layers(),
                    k,
                ).contains_key(other) implies exists|i: int|
                0 <= i < new_jobs.len() && (#[trigger] new_jobs[i]).kind == k
                    && new_jobs[i].descriptor@ == other by {
                assert(k == kind);
                assert(other == key);
                assert(new_jobs[0].kind == k);
            }
        }
        self.lemma_layers_kept(before);
    }

    /// The stages of `before` are still what they were, when the graph has
    /// grown and every cache still holds what it held. What the caches have
    /// gained is not spoken of.
    proof fn lemma_layers_kept(&self, before: &Self)
        requires
            before.wf(),
            self.same_constructors(before),
            self.graph().keeps_shape(&before.graph()),
            layers_grow(before.layers(), self.layers()),
        ensures
            self.runner().within(&self.graph()),
            root_layer(&self.graph(), before.layers().programs),
            root_layer(&self.graph(), before.layers().meshes),
            root_layer(&self.graph(), before.layers().textures),
            then_layer(
                &self.graph(),
                before.layers().gl_meshes,
                self.layers().meshes,
                self.upload_mesh(),
            ),
            then_layer(
                &self.graph(),
                before.layers().gl_textures,
                self.layers().textures,
                self.upload_texture(),
            ),
            pair_layer(
                &self.graph(),
                Layers { vertex_arrays: before.layers().vertex_arrays, ..self.layers() },
                self.build_vertex_array(),
            ),
            bundle_layer(
                &self.graph(),
                Layers { bundles: before.layers().bundles, ..self.layers() },
                self.assemble_bundle(),
            ),
    {
        let g = self.graph();
        let g0 = before.graph();
        let l = self.layers();
        let l0 = before.layers();
        assert forall|key: DescriptorView| #[trigger] l0.gl_meshes.contains_key(key) implies l.meshes.contains_key(
            key,
        ) && g.contains(l0.gl_meshes[key]) && g.sources()[l0.gl_meshes[key].index as int] == (
        Source::<F, J>::Then { parent: l.meshes[key].index, transform: self.upload_mesh() }) by {
            assert(l0.meshes.contains_key(key));
            assert(l.meshes.contains_key(key));
            assert(l.meshes[key] == l0.meshes[key]);
            assert(g0.contains(l0.gl_meshes[key]));
            assert(g0.sources().len() == g0.cells().len());
            assert(g.sources()[l0.gl_meshes[key].index as int] == g0.sources()[l0.gl_meshes[key].index as int]);
        }
        assert forall|key: DescriptorView| #[trigger] l0.gl_textures.contains_key(key) implies l.textures.contains_key(
            key,
        ) && g.contains(l0.gl_textures[key]) && g.sources()[l0.gl_textures[key].index as int] == (
        Source::<F, J>::Then { parent: l.textures[key].index, transform: self.upload_texture() }) by {
            assert(l0.textures.contains_key(key));
            assert(l.textures.contains_key(key));
            assert(l.textures[key] == l0.textures[key]);
            assert(g0.contains(l0.gl_textures[key]));
            assert(g0.sources().len() == g0.cells().len());
            assert(g.sources()[l0.gl_textures[key].index as int] == g0.sources()[l0.gl_textures[key].index as int]);
        }
        let lp = Layers { vertex_arrays: l0.vertex_arrays, ..l };
        assert forall|mesh: DescriptorView, shader: DescriptorView| #[trigger]
            lp.vertex_arrays.contains_key(pair_key(mesh, shader)) implies {
            let joined = lp.vertex_arrays[pair_key(mesh, shader)];
            &&& lp.programs.contains_key(shader)
            &&& lp.gl_meshes.contains_key(mesh)
            &&& g.contains(joined)
            &&& g.sources()[joined.index as int] is Join
            &&& g.sources()[joined.index as int]->inputs@ == seq![
                lp.programs[shader].index,
                lp.gl_meshes[mesh].index,
            ]
            &&& g.sources()[joined.index as int]->assemble == self.build_vertex_array()
        } by {
            let joined = l0.vertex_arrays[pair_key(mesh, shader)];
            assert(l0.vertex_arrays.contains_key(pair_key(mesh, shader)));
            assert(l0.programs.contains_key(shader));
            assert(l0.gl_meshes.contains_key(mesh));
            assert(l.programs.contains_key(shader));
            assert(l.gl_meshes.contains_key(mesh));
            assert(l.programs[shader] == l0.programs[shader]);
            assert(l.gl_meshes[mesh] == l0.gl_meshes[mesh]);
            assert(g0.contains(joined));
            assert(g0.sources().len() == g0.cells().len());
            assert(g.sources()[joined.index as int] == g0.sources()[joined.index as int]);
        }
        let lb = Layers { bundles: l0.bundles, ..l };
        assert forall|mesh: DescriptorView, shader: DescriptorView, textures: Seq<DescriptorView>| #[trigger]
            lb.bundles.contains_key(bundle_key(mesh, shader, textures)) implies {
            let joined = lb.bundles[bundle_key(mesh, shader, textures)];
            &&& lb.programs.contains_key(shader)
            &&& lb.vertex_arrays.contains_key(pair_key(mesh, shader))
            &&& forall|i: int|
                0 <= i < textures.len() ==> lb.gl_textures.contains_key(#[trigger] textures[i])
            &&& g.contains(joined)
            &&& g.sources()[joined.index as int] is Join
            &&& g.sources()[joined.index as int]->inputs@ == bundle_inputs(
                lb.programs[shader],
                lb.vertex_arrays[pair_key(mesh, shader)],
                lb.gl_textures,
                textures,
            )
            &&& g.sources()[joined.index as int]->assemble == self.assemble_bundle()
        } by {
            let joined = l0.bundles[bundle_key(mesh, shader, textures)];
            assert(l0.bundles.contains_key(bundle_key(mesh, shader, textures)));
            assert(l0.programs.contains_key(shader));
            assert(l0.vertex_arrays.contains_key(pair_key(mesh, shader)));
            assert(l.programs.contains_key(shader));
            assert(l.vertex_arrays.contains_key(pair_key(mesh, shader)));
            assert(l.programs[shader] == l0.programs[shader]);
            assert(l.vertex_arrays[pair_key(mesh, shader)] == l0.vertex_arrays[pair_key(mesh, shader)]);
            assert(g0.contains(joined));
            assert(g0.sources().len() == g0.cells().len());
            assert(g.sources()[joined.index as int] == g0.sources()[joined.index as int]);
            assert forall|i: int| 0 <= i < textures.len() implies lb.gl_textures.contains_key(
                #[trigger] textures[i],
            ) && lb.gl_textures[textures[i]] == l0.gl_textures[textures[i]] by {
                assert(l0.gl_textures.contains_key(textures[i]));
                assert(l.gl_textures.contains_key(textures[i]));
            }
            assert(bundle_inputs(
                lb.programs[shader],
                lb.vertex_arrays[pair_key(mesh, shader)],
                lb.gl_textures,
                textures,
            ) =~= bundle_inputs(
                l0.programs[shader],
                l0.vertex_arrays[pair_key(mesh, shader)],
                l0.gl_textures,
                textures,
            ));
        }
    }
}


impl<T, F: Fn(&T) -> T + Copy, J: Fn(Vec<&T>) -> T + Copy> Resources<T, F, J> {
    /// What a root stage holds already is not asked for again: no request
    /// adds a job for a key that the stage of its kind held before.
    pub proof fn lemma_cached_asks_nothing(&self, before: &Self, kind: JobKind, key: DescriptorView)
        requires
            self.follows(before),
            layer_of(before.layers(), kind).contains_key(key),
        ensures
            forall|i: int|
                before.jobs().len() <= i < self.jobs().len() ==> !((#[trigger] self.jobs()[i]).kind
                    == kind && self.jobs()[i].descriptor@ == key),
    {
        let fresh = self.jobs().subrange(before.jobs().len() as int, self.jobs().len() as int);
        assert forall|i: int| before.jobs().len() <= i < self.jobs().len() implies !((
        #[trigger] self.jobs()[i]).kind == kind && self.jobs()[i].descriptor@ == key) by {
            assert(fresh[i - before.jobs().len()] == self.jobs()[i]);
        }
    }

    /// What a root stage gains is asked for once: a key that the stage of a
    /// kind holds now and did not hold before has exactly one job among
    /// those that were added, and that job carries the promise that the
    /// stage holds for the key.
    pub proof fn lemma_gained_asks_once(&self, before: &Self, kind: JobKind, key: DescriptorView) -> (at:
        int)
        requires
            self.follows(before),
            layer_of(self.layers(), kind).contains_key(key),
            !layer_of(before.layers(), kind).contains_key(key),
        ensures
            before.jobs().len() <= at < self.jobs().len(),
            self.jobs()[at].kind == kind,
            self.jobs()[at].descriptor@ == key,
            self.jobs()[at].promise == layer_of(self.layers(), kind)[key],
            forall|i: int|
                before.jobs().len() <= i < self.jobs().len() && (#[trigger] self.jobs()[i]).kind == kind
                    && self.jobs()[i].descriptor@ == key ==> i == at,
    {
        let start = before.jobs().len() as int;
        let fresh = self.jobs().subrange(start, self.jobs().len() as int);
        let found = choose|i: int|
            0 <= i < fresh.len() && (#[trigger] fresh[i]).kind == kind && fresh[i].descriptor@ == key;
        assert(fresh[found] == self.jobs()[found + start]);
        assert forall|i: int|
            start <= i < self.jobs().len() && (#[trigger] self.jobs()[i]).kind == kind
                && self.jobs()[i].descriptor@ == key implies i == found + start by {
            assert(fresh[i - start] == self.jobs()[i]);
            if i - start < found {
                assert(!(fresh[i - start].kind == fresh[found].kind && fresh[i - start].descriptor@
                    == fresh[found].descriptor@));
            } else if found < i - start {
                assert(!(fresh[found].kind == fresh[i - start].kind && fresh[found].descriptor@
                    == fresh[i - start].descriptor@));
            }
        }
        found + start
    }

    /// What follows something that follows `before`, follows `before`.
    pub proof fn lemma_follows_trans(&self, between: &Self, before: &Self)
        requires
            self.follows(between),
            between.follows(before),
        ensures
            self.follows(before),
    {
        let a = before.jobs().len() as int;
        let b = between.jobs().len() as int;
        let c = self.jobs().len() as int;
        let first = between.jobs().subrange(a, b);
        let second = self.jobs().subrange(b, c);
        let all = self.jobs().subrange(a, c);
        assert(self.jobs().subrange(0, a) =~= before.jobs()) by {
            assert forall|i: int| 0 <= i < a implies self.jobs()[i] == before.jobs()[i] by {
                assert(self.jobs().subrange(0, b)[i] == between.jobs()[i]);
                assert(between.jobs().subrange(0, a)[i] == before.jobs()[i]);
            }
        }
        assert forall|i: int| 0 <= i < b - a implies all[i] == first[i] by {
            assert(self.jobs().subrange(0, b)[i + a] == between.jobs()[i + a]);
        }
        assert forall|i: int| b - a <= i < c - a implies all[i] == second[i - (b - a)] by {}
        let l0 = before.layers();
        let l1 = between.layers();
        let l2 = self.layers();
        assert forall|kind: JobKind| grows(layer_of(l0, kind), layer_of(l1, kind)) && grows(
            layer_of(l1, kind),
            layer_of(l2, kind),
        ) by {}
        assert forall|i: int| 0 <= i < all.len() implies {
            let job = #[trigger] all[i];
            &&& !layer_of(l0, job.kind).contains_key(job.descriptor@)
            &&& layer_of(l2, job.kind).contains_key(job.descriptor@)
            &&& layer_of(l2, job.kind)[job.descriptor@] == job.promise
        } by {
            let job = all[i];
            assert(grows(layer_of(l0, job.kind), layer_of(l1, job.kind)));
            assert(grows(layer_of(l1, job.kind), layer_of(l2, job.kind)));
            if i < b - a {
                assert(job == first[i]);
                assert(layer_of(l1, job.kind).contains_key(job.descriptor@));
            } else {
                assert(job == second[i - (b - a)]);
                if layer_of(l0, job.kind).contains_key(job.descriptor@) {
                    assert(layer_of(l1, job.kind).contains_key(job.descriptor@));
                }
            }
        }
        assert forall|kind: JobKind, key: DescriptorView| #[trigger]
            layer_of(l2, kind).contains_key(key) && !layer_of(l0, kind).contains_key(
                key,
            ) implies exists|i: int|
            0 <= i < all.len() && (#[trigger] all[i]).kind == kind && all[i].descriptor@ == key by {
            if layer_of(l1, kind).contains_key(key) {
                let i = choose|i: int|
                    0 <= i < first.len() && (#[trigger] first[i]).kind == kind && first[i].descriptor@
                        == key;
                assert(all[i] == first[i]);
            } else {
                let i = choose|i: int|
                    0 <= i < second.len() && (#[trigger] second[i]).kind == kind
                        && second[i].descriptor@ == key;
                assert(all[i + (b - a)] == second[i]);
            }
        }
        assert forall|i: int, j: int| 0 <= i < j < all.len() implies !((#[trigger] all[i]).kind == (
        #[trigger] all[j]).kind && all[i].descriptor@ == all[j].descriptor@) by {
            if j < b - a {
                assert(all[i] == first[i]);
                assert(all[j] == first[j]);
            } else if i >= b - a {
                assert(all[i] == second[i - (b - a)]);
                assert(all[j] == second[j - (b - a)]);
            } else {
                assert(all[i] == first[i]);
                assert(all[j] == second[j - (b - a)]);
                assert(layer_of(l1, all[i].kind).contains_key(all[i].descriptor@));
                assert(!layer_of(l1, all[j].kind).contains_key(all[j].descriptor@));
            }
        }
        assert forall|promise: Promise|
            before.graph().cells().len() <= promise.index < self.graph().cells().len() implies #[trigger] newly_cached(
            l0,
            l2,
            promise,
        ) by {
            if promise.index < between.graph().cells().len() {
                assert(newly_cached(l0, l1, promise));
                let (stage, key) = choose|stage: Stage, key: DescriptorView| #[trigger]
                    entered(l0, l1, stage, key, promise);
                assert(grows(stage_of(l1, stage), stage_of(l2, stage)));
                assert(stage_of(l1, stage).contains_key(key));
                assert(entered(l0, l2, stage, key, promise));
            } else {
                assert(newly_cached(l1, l2, promise));
                let (stage, key) = choose|stage: Stage, key: DescriptorView| #[trigger]
                    entered(l1, l2, stage, key, promise);
                assert(grows(stage_of(l0, stage), stage_of(l1, stage)));
                if stage_of(l0, stage).contains_key(key) {
                    assert(stage_of(l1, stage).contains_key(key));
                }
                assert(entered(l0, l2, stage, key, promise));
            }
        }
        assert forall|i: int| a <= i < c implies before.graph().cells().len() <= (
        #[trigger] self.jobs()[i]).promise.index < self.graph().cells().len() && self.graph().pending(
            self.jobs()[i].promise.index as int,
        ) by {
            if i < b {
                assert(self.jobs().subrange(0, b)[i] == between.jobs()[i]);
                assert(between.graph().pending(between.jobs()[i].promise.index as int));
            }
        }
    }
}


impl<T, F: Fn(&T) -> T + Copy, J: Fn(Vec<&T>) -> T + Copy> Resources<T, F, J> {
    /// The promise of the uploaded mesh that the descriptor names: the
    /// image of the decoded mesh under the upload.
    fn gl_mesh(&mut self, key: &Descriptor) -> (promise: Promise)
        requires
            old(self).wf(),
            !old(self).layers().meshes.contains_key(key@) ==> mesh_shape(key@) is Ok,
        ensures
            final(self).wf(),
            final(self).follows(old(self)),
            final(self).graph().cells().len() == old(self).graph().cells().len() + grown(
                old(self).layers().meshes,
                key@,
            ) + grown(old(self).layers().gl_meshes, key@),
            final(self).jobs().len() == old(self).jobs().len() + grown(old(self).layers().meshes, key@),
            requested(old(self).layers().gl_meshes, key@, promise, final(self).layers().gl_meshes),
            final(self).layers().gl_meshes.contains_key(key@),
            final(self).layers().gl_meshes[key@] == promise,
            final(self).graph().contains(promise),
            final(self).layers().meshes.contains_key(key@),
            requested(
                old(self).layers().meshes,
                key@,
                final(self).layers().meshes[key@],
                final(self).layers().meshes,
            ),
            final(self).layers() == (Layers {
                meshes: final(self).layers().meshes,
                gl_meshes: final(self).layers().gl_meshes,
                ..old(self).layers()
            }),
    {
        let mesh = self.mesh(key);
        let ghost between = *self;
        let promise = then_stage(&mut self.gl_meshes, &mut self.graph, key, mesh, self.upload_mesh);
        proof {
            self.lemma_then_stage_follows(&between, true, key@, promise);
            self.lemma_follows_trans(&between, old(self));
        }
        promise
    }

    /// The promise of the uploaded texture that the descriptor names: the
    /// image of the decoded image under the upload.
    fn gl_texture(&mut self, key: &Descriptor) -> (promise: Promise)
        requires
            old(self).wf(),
            !old(self).layers().textures.contains_key(key@) ==> texture_shape(key@) is Ok,
        ensures
            final(self).wf(),
            final(self).follows(old(self)),
            final(self).graph().cells().len() == old(self).graph().cells().len() + grown(
                old(self).layers().textures,
                key@,
            ) + grown(old(self).layers().gl_textures, key@),
            final(self).jobs().len() == old(self).jobs().len() + grown(old(self).layers().textures, key@),
            requested(
                old(self).layers().gl_textures,
                key@,
                promise,
                final(self).layers().gl_textures,
            ),
            final(self).layers().gl_textures.contains_key(key@),
            final(self).layers().gl_textures[key@] == promise,
            final(self).graph().contains(promise),
            final(self).layers().textures.contains_key(key@),
            requested(
                old(self).layers().textures,
                key@,
                final(self).layers().textures[key@],
                final(self).layers().textures,
            ),
            final(self).layers() == (Layers {
                textures: final(self).layers().textures,
                gl_textures: final(self).layers().gl_textures,
                ..old(self).layers()
            }),
    {
        let texture = self.texture(key);
        let ghost between = *self;
        let promise = then_stage(
            &mut self.gl_textures,
            &mut self.graph,
            key,
            texture,
            self.upload_texture,
        );
        proof {
            self.lemma_then_stage_follows(&between, false, key@, promise);
            self.lemma_follows_trans(&between, old(self));
        }
        promise
    }

    /// What an upload stage leaves behind is sound and follows what was
    /// before. `of_mesh` says which of the two upload stages it was.
    proof fn lemma_then_stage_follows(&self, before: &Self, of_mesh: bool, key: DescriptorView, promise: Promise)
        requires
            before.wf(),
            self.caches_wf(),
            self.same_constructors(before),
            self.graph().wf(),
            self.graph().extends(&before.graph()),
            self.jobs() == before.jobs(),
            ({
                let upper = if of_mesh {
                    before.layers().gl_meshes
                } else {
                    before.layers().gl_textures
                };
                &&& upper.contains_key(key) ==> self.graph().cells().len()
                    == before.graph().cells().len()
                &&& !upper.contains_key(key) ==> promise.index == before.graph().cells().len()
                    && self.graph().cells().len() == before.graph().cells().len() + 1
            }),
            of_mesh ==> before.layers().meshes.contains_key(key) && requested(
                before.layers().gl_meshes,
                key,
                promise,
                self.layers().gl_meshes,
            ) && self.layers() == (Layers { gl_meshes: self.layers().gl_meshes, ..before.layers() }),
            !of_mesh ==> before.layers().textures.contains_key(key) && requested(
                before.layers().gl_textures,
                key,
                promise,
                self.layers().gl_textures,
            ) && self.layers() == (Layers {
                gl_textures: self.layers().gl_textures,
                ..before.layers()
            }),
            ({
                let upper = if of_mesh {
                    before.layers().gl_meshes
                } else {
                    before.layers().gl_textures
                };
                let lower = if of_mesh {
                    before.layers().meshes
                } else {
                    before.layers().textures
                };
                let transform = if of_mesh {
                    before.upload_mesh()
                } else {
                    before.upload_texture()
                };
                !upper.contains_key(key) ==> self.graph().contains(promise)
                    && self.graph().sources()[promise.index as int] == (Source::<F, J>::Then {
                    parent: lower[key].index,
                    transform,
                })
            }),
        ensures
            self.wf(),
            self.follows(before),
    {
        assert(self.jobs().subrange(0, before.jobs().len() as int) =~= before.jobs());
        self.lemma_layers_kept(before);
        if of_mesh {
            if !before.layers().gl_meshes.contains_key(key) {
                assert(entered(before.layers(), self.layers(), Stage::GlMeshes, key, promise));
            }
        } else {
            if !before.layers().gl_textures.contains_key(key) {
                assert(entered(before.layers(), self.layers(), Stage::GlTextures, key, promise));
            }
        }
        let l = self.layers();
        let l0 = before.layers();
        if of_mesh {
            assert forall|k: DescriptorView| #[trigger] l.gl_meshes.contains_key(k) implies l.meshes.contains_key(
                k,
            ) && self.graph().contains(l.gl_meshes[k]) && self.graph().sources()[l.gl_meshes[k].index as int]
                == (Source::<F, J>::Then {
                parent: l.meshes[k].index,
                transform: self.upload_mesh(),
            }) by {
                if l0.gl_meshes.contains_key(k) {
                } else {
                    assert(k == key);
                }
            }
        } else {
            assert forall|k: DescriptorView| #[trigger] l.gl_textures.contains_key(k) implies l.textures.contains_key(
                k,
            ) && self.graph().contains(l.gl_textures[k])
                && self.graph().sources()[l.gl_textures[k].index as int] == (Source::<F, J>::Then {
                parent: l.textures[k].index,
                transform: self.upload_texture(),
            }) by {
                if l0.gl_textures.contains_key(k) {
                } else {
                    assert(k == key);
                }
            }
        }
        assert(pair_layer(
            &self.graph(),
            Layers { vertex_arrays: l0.vertex_arrays, ..l },
            self.build_vertex_array(),
        ));
        assert((Layers { vertex_arrays: l0.vertex_arrays, ..l }) == l);
        assert((Layers { bundles: l0.bundles, ..l }) == l);
    }
}


impl<T, F: Fn(&T) -> T + Copy, J: Fn(Vec<&T>) -> T + Copy> Resources<T, F, J> {
    /// The promise of the vertex array of a mesh under a shader: the join
    /// of the program of the shader and the uploaded mesh. It is cached
    /// under the pair of the two descriptors, and what it is made of under
    /// each of them.
    fn vertex_array(&mut self, mesh_key: &Descriptor, shader_key: &Descriptor) -> (promise: Promise)
        requires
            old(self).wf(),
            !old(self).layers().programs.contains_key(shader_key@) ==> shader_shape(shader_key@) is Ok,
            !old(self).layers().meshes.contains_key(mesh_key@) ==> mesh_shape(mesh_key@) is Ok,
        ensures
            final(self).wf(),
            final(self).follows(old(self)),
            final(self).graph().cells().len() == old(self).graph().cells().len() + grown(
                old(self).layers().programs,
                shader_key@,
            ) + grown(old(self).layers().meshes, mesh_key@) + grown(
                old(self).layers().gl_meshes,
                mesh_key@,
            ) + grown(old(self).layers().vertex_arrays, pair_key(mesh_key@, shader_key@)),
            final(self).jobs().len() == old(self).jobs().len() + grown(
                old(self).layers().programs,
                shader_key@,
            ) + grown(old(self).layers().meshes, mesh_key@),
            requested(
                old(self).layers().vertex_arrays,
                pair_key(mesh_key@, shader_key@),
                promise,
                final(self).layers().vertex_arrays,
            ),
            final(self).layers().vertex_arrays.contains_key(pair_key(mesh_key@, shader_key@)),
            final(self).layers().vertex_arrays[pair_key(mesh_key@, shader_key@)] == promise,
            final(self).graph().contains(promise),
            final(self).layers().programs.contains_key(shader_key@),
            requested(
                old(self).layers().programs,
                shader_key@,
                final(self).layers().programs[shader_key@],
                final(self).layers().programs,
            ),
            final(self).layers().meshes.contains_key(mesh_key@),
            requested(
                old(self).layers().meshes,
                mesh_key@,
                final(self).layers().meshes[mesh_key@],
                final(self).layers().meshes,
            ),
            final(self).layers().gl_meshes.contains_key(mesh_key@),
            requested(
                old(self).layers().gl_meshes,
                mesh_key@,
                final(self).layers().gl_meshes[mesh_key@],
                final(self).layers().gl_meshes,
            ),
            final(self).layers() == (Layers {
                programs: final(self).layers().programs,
                meshes: final(self).layers().meshes,
                gl_meshes: final(self).layers().gl_meshes,
                vertex_arrays: final(self).layers().vertex_arrays,
                ..old(self).layers()
            }),
    {
        let program = self.program(shader_key);
        let ghost first = *self;
        let gl_mesh = self.gl_mesh(mesh_key);
        let ghost between = *self;
        proof {
            self.lemma_follows_trans(&first, old(self));
            assert(first.layers().programs.contains_key(shader_key@));
            assert(between.layers().programs.contains_key(shader_key@));
        }
        let key = Descriptor::pair(mesh_key.clone(), shader_key.clone());
        let mut inputs: Vec<Promise> = Vec::new();
        inputs.push(program);
        inputs.push(gl_mesh);
        let promise = join_stage(
            &mut self.gl_vertex_arrays,
            &mut self.graph,
            key,
            &inputs,
            self.build_vertex_array,
        );
        proof {
            assert(indices_of(inputs@) =~= seq![program.index, gl_mesh.index]);
            self.lemma_pair_stage_follows(&between, mesh_key@, shader_key@, promise);
            self.lemma_follows_trans(&between, old(self));
        }
        promise
    }

    /// What the vertex array stage leaves behind is sound and follows what
    /// was before.
    proof fn lemma_pair_stage_follows(
        &self,
        before: &Self,
        mesh: DescriptorView,
        shader: DescriptorView,
        promise: Promise,
    )
        requires
            before.wf(),
            self.caches_wf(),
            self.same_constructors(before),
            self.graph().wf(),
            self.graph().extends(&before.graph()),
            self.jobs() == before.jobs(),
            before.layers().vertex_arrays.contains_key(pair_key(mesh, shader)) ==> self.graph().cells().len()
                == before.graph().cells().len(),
            !before.layers().vertex_arrays.contains_key(pair_key(mesh, shader)) ==> promise.index
                == before.graph().cells().len() && self.graph().cells().len()
                == before.graph().cells().len() + 1,
            before.layers().programs.contains_key(shader),
            before.layers().gl_meshes.contains_key(mesh),
            requested(
                before.layers().vertex_arrays,
                pair_key(mesh, shader),
                promise,
                self.layers().vertex_arrays,
            ),
            self.layers() == (Layers {
                vertex_arrays: self.layers().vertex_arrays,
                ..before.layers()
            }),
            !before.layers().vertex_arrays.contains_key(pair_key(mesh, shader)) ==> {
                &&& self.graph().contains(promise)
                &&& self.graph().sources()[promise.index as int] is Join
                &&& self.graph().sources()[promise.index as int]->inputs@ == seq![
                    before.layers().programs[shader].index,
                    before.layers().gl_meshes[mesh].index,
                ]
                &&& self.graph().sources()[promise.index as int]->assemble
                    == before.build_vertex_array()
            },
        ensures
            self.wf(),
            self.follows(before),
    {
        assert(self.jobs().subrange(0, before.jobs().len() as int) =~= before.jobs());
        self.lemma_layers_kept(before);
        if !before.layers().vertex_arrays.contains_key(pair_key(mesh, shader)) {
            assert(entered(
                before.layers(),
                self.layers(),
                Stage::VertexArrays,
                pair_key(mesh, shader),
                promise,
            ));
        }
        let g = self.graph();
        let l = self.layers();
        let l0 = before.layers();
        assert((Layers { bundles: l0.bundles, ..l }) == l);
        let lp = Layers { vertex_arrays: l0.vertex_arrays, ..l };
        assert forall|m: DescriptorView, s: DescriptorView| #[trigger]
            l.vertex_arrays.contains_key(pair_key(m, s)) implies {
            let joined = l.vertex_arrays[pair_key(m, s)];
            &&& l.programs.contains_key(s)
            &&& l.gl_meshes.contains_key(m)
            &&& g.contains(joined)
            &&& g.sources()[joined.index as int] is Join
            &&& g.sources()[joined.index as int]->inputs@ == seq![
                l.programs[s].index,
                l.gl_meshes[m].index,
            ]
            &&& g.sources()[joined.index as int]->assemble == self.build_vertex_array()
        } by {
            if l0.vertex_arrays.contains_key(pair_key(m, s)) {
                assert(lp.vertex_arrays.contains_key(pair_key(m, s)));
            } else {
                assert(pair_key(m, s) == pair_key(mesh, shader));
                assert(seq![m, s][0] == seq![mesh, shader][0]);
                assert(seq![m, s][1] == seq![mesh, shader][1]);
            }
        }
    }
}


impl<T, F: Fn(&T) -> T + Copy, J: Fn(Vec<&T>) -> T + Copy> Resources<T, F, J> {
    /// The promise of the bundle for a request that has no fault: stage by
    /// stage, what the caches hold is taken and what they lack is added.
    fn build(
        &mut self,
        mesh_key: &Descriptor,
        shader_program_key: &Descriptor,
        texture_keys: Vec<Descriptor>,
    ) -> (bundle: Promise)
        requires
            old(self).wf(),
            request_fault(
                old(self).layers(),
                mesh_key@,
                shader_program_key@,
                views_of(texture_keys@),
            ) is None,
        ensures
            final(self).wf(),
            final(self).follows(old(self)),
            old(self).layers().bundles.contains_key(
                bundle_key(mesh_key@, shader_program_key@, views_of(texture_keys@)),
            ) ==> final(self).graph().cells().len() == old(self).graph().cells().len()
                && final(self).jobs() == old(self).jobs() && final(self).layers() == old(self).layers(),
            requested(
                old(self).layers().bundles,
                bundle_key(mesh_key@, shader_program_key@, views_of(texture_keys@)),
                bundle,
                final(self).layers().bundles,
            ),
            final(self).layers().bundles.contains_key(
                bundle_key(mesh_key@, shader_program_key@, views_of(texture_keys@)),
            ),
            final(self).layers().bundles[bundle_key(
                mesh_key@,
                shader_program_key@,
                views_of(texture_keys@),
            )] == bundle,
            final(self).graph().contains(bundle),
            gained(
                old(self).layers().programs,
                final(self).layers().programs,
                set![shader_program_key@],
            ),
            gained(old(self).layers().meshes, final(self).layers().meshes, set![mesh_key@]),
            gained(old(self).layers().gl_meshes, final(self).layers().gl_meshes, set![mesh_key@]),
            gained(
                old(self).layers().vertex_arrays,
                final(self).layers().vertex_arrays,
                set![pair_key(mesh_key@, shader_program_key@)],
            ),
            gained(
                old(self).layers().textures,
                final(self).layers().textures,
                keys_of(views_of(texture_keys@)),
            ),
            gained(
                old(self).layers().gl_textures,
                final(self).layers().gl_textures,
                keys_of(views_of(texture_keys@)),
            ),
    {
        let ghost start = *self;
        let ghost views = views_of(texture_keys@);
        let ghost pair = pair_key(mesh_key@, shader_program_key@);
        let ghost hit = start.layers().bundles.contains_key(
            bundle_key(mesh_key@, shader_program_key@, views),
        );
        proof {
            lemma_textures_sound(start.layers().textures, views);
            if hit {
                let key = bundle_key(mesh_key@, shader_program_key@, views);
                assert(start.layers().programs.contains_key(shader_program_key@));
                assert(start.layers().vertex_arrays.contains_key(pair));
                assert(start.layers().gl_meshes.contains_key(mesh_key@));
                assert(start.layers().meshes.contains_key(mesh_key@));
                assert forall|j: int| 0 <= j < views.len() implies start.layers().gl_textures.contains_key(
                    #[trigger] views[j],
                ) && start.layers().textures.contains_key(views[j]) by {
                    assert(start.layers().gl_textures.contains_key(views[j]));
                }
            }
        }
        let vertex_array = self.vertex_array(mesh_key, shader_program_key);
        let ghost first = *self;
        let program = self.program(shader_program_key);
        proof {
            self.lemma_follows_trans(&first, &start);
            assert(self.layers() == first.layers());
        }
        let mut inputs: Vec<Promise> = Vec::new();
        inputs.push(program);
        inputs.push(vertex_array);
        let mut i: usize = 0;
        while i < texture_keys.len()
            invariant
                i <= texture_keys@.len(),
                views == views_of(texture_keys@),
                pair == pair_key(mesh_key@, shader_program_key@),
                start.wf(),
                self.wf(),
                self.follows(&start),
                hit == start.layers().bundles.contains_key(
                    bundle_key(mesh_key@, shader_program_key@, views),
                ),
                hit ==> self.graph().cells().len() == start.graph().cells().len(),
                hit ==> self.jobs().len() == start.jobs().len() && self.layers() == start.layers(),
                hit ==> forall|j: int|
                    0 <= j < views.len() ==> start.layers().gl_textures.contains_key(
                        #[trigger] views[j],
                    ) && start.layers().textures.contains_key(views[j]),
                forall|j: int|
                    0 <= j < views.len() ==> start.layers().textures.contains_key(#[trigger] views[j])
                        || texture_shape(views[j]) is Ok,
                inputs@.len() == 2 + i,
                self.layers().programs.contains_key(shader_program_key@),
                self.layers().programs[shader_program_key@] == inputs@[0],
                self.layers().vertex_arrays.contains_key(pair),
                self.layers().vertex_arrays[pair] == inputs@[1],
                forall|j: int|
                    0 <= j < i ==> self.layers().gl_textures.contains_key(#[trigger] views[j])
                        && self.layers().gl_textures[views[j]] == inputs@[2 + j],
                forall|j: int| 0 <= j < inputs@.len() ==> self.graph().contains(#[trigger] inputs@[j]),
                self.layers().bundles == start.layers().bundles,
                gained(start.layers().programs, self.layers().programs, set![shader_program_key@]),
                gained(start.layers().meshes, self.layers().meshes, set![mesh_key@]),
                gained(start.layers().gl_meshes, self.layers().gl_meshes, set![mesh_key@]),
                gained(start.layers().vertex_arrays, self.layers().vertex_arrays, set![pair]),
                gained(
                    start.layers().textures,
                    self.layers().textures,
                    keys_of(views.subrange(0, i as int)),
                ),
                gained(
                    start.layers().gl_textures,
                    self.layers().gl_textures,
                    keys_of(views.subrange(0, i as int)),
                ),
            decreases texture_keys@.len() - i,
        {
            let ghost before = *self;
            let ghost held = inputs@;
            proof {
                let key = views[i as int];
                assert(key == texture_keys@[i as int]@);
                if before.layers().textures.contains_key(key) {
                } else {
                    assert(!start.layers().textures.contains_key(key));
                }
                if hit {
                    assert(start.layers().gl_textures.contains_key(key));
                    assert(start.layers().textures.contains_key(key));
                    assert(before.layers().gl_textures.contains_key(key));
                    assert(before.layers().textures.contains_key(key));
                }
            }
            let uploaded = self.gl_texture(&texture_keys[i]);
            inputs.push(uploaded);
            proof {
                let key = views[i as int];
                assert(key == texture_keys@[i as int]@);
                self.lemma_follows_trans(&before, &start);
                assert(self.graph().extends(&before.graph()));
                assert forall|j: int| 0 <= j < inputs@.len() implies self.graph().contains(
                    #[trigger] inputs@[j],
                ) by {
                    if j < held.len() {
                        assert(before.graph().contains(held[j]));
                    }
                }
                assert forall|j: int| 0 <= j < i + 1 implies self.layers().gl_textures.contains_key(
                    #[trigger] views[j],
                ) && self.layers().gl_textures[views[j]] == inputs@[2 + j] by {
                    if j < i {
                        assert(before.layers().gl_textures.contains_key(views[j]));
                    }
                }
                let wider = keys_of(views.subrange(0, i + 1));
                assert(views.subrange(0, i + 1)[i as int] == key);
                assert(wider.contains(key));
                assert forall|k: DescriptorView| keys_of(views.subrange(0, i as int)).contains(
                    k,
                ) implies wider.contains(k) by {
                    let j = choose|j: int|
                        0 <= j < views.subrange(0, i as int).len() && #[trigger] views.subrange(
                            0,
                            i as int,
                        )[j] == k;
                    assert(views.subrange(0, i + 1)[j] == k);
                }
                assert forall|k: DescriptorView| #[trigger]
                    self.layers().textures.contains_key(k) implies start.layers().textures.contains_key(
                    k,
                ) || wider.contains(k) by {
                    if before.layers().textures.contains_key(k) {
                    } else {
                        assert(k == key);
                    }
                }
                assert forall|k: DescriptorView| #[trigger]
                    self.layers().gl_textures.contains_key(k) implies start.layers().gl_textures.contains_key(
                    k,
                ) || wider.contains(k) by {
                    if before.layers().gl_textures.contains_key(k) {
                    } else {
                        assert(k == key);
                    }
                }
            }
            i += 1;
        }
        let ghost between = *self;
        proof {
            assert(views.subrange(0, i as int) =~= views);
            let wanted = bundle_inputs(
                self.layers().programs[shader_program_key@],
                self.layers().vertex_arrays[pair],
                self.layers().gl_textures,
                views,
            );
            assert(i == views.len());
            assert(wanted.len() == 2 + views.len());
            assert forall|j: int| 0 <= j < wanted.len() implies indices_of(inputs@)[j] == wanted[j] by {
                if j >= 2 {
                    assert(self.layers().gl_textures[views[j - 2]] == inputs@[2 + (j - 2)]);
                }
            }
            assert(indices_of(inputs@) =~= wanted);
        }
        let key = Descriptor::triple(
            mesh_key.clone(),
            shader_program_key.clone(),
            Descriptor::sequence(texture_keys),
        );
        let bundle = join_stage(&mut self.bundles, &mut self.graph, key, &inputs, self.assemble_bundle);
        proof {
            self.lemma_bundle_stage_follows(&between, mesh_key@, shader_program_key@, views, bundle);
            self.lemma_follows_trans(&between, &start);
        }
        bundle
    }

    /// What a request without fault leaves behind, and the promise that it
    /// gives: the promise is the one that the cache of bundles holds for the
    /// request, entered now or before; the state follows what was before;
    /// no cache has gained anything but keys of the request; and a request
    /// that was made before adds no promise, no job and no entry.
    pub open spec fn answers(
        &self,
        before: &Self,
        mesh: DescriptorView,
        shader: DescriptorView,
        textures: Seq<DescriptorView>,
        bundle: Promise,
    ) -> bool {
        let key = bundle_key(mesh, shader, textures);
        &&& self.follows(before)
        &&& requested(before.layers().bundles, key, bundle, self.layers().bundles)
        &&& self.layers().bundles.contains_key(key)
        &&& self.layers().bundles[key] == bundle
        &&& self.graph().contains(bundle)
        &&& gained(before.layers().programs, self.layers().programs, set![shader])
        &&& gained(before.layers().meshes, self.layers().meshes, set![mesh])
        &&& gained(before.layers().gl_meshes, self.layers().gl_meshes, set![mesh])
        &&& gained(
            before.layers().vertex_arrays,
            self.layers().vertex_arrays,
            set![pair_key(mesh, shader)],
        )
        &&& gained(before.layers().textures, self.layers().textures, keys_of(textures))
        &&& gained(before.layers().gl_textures, self.layers().gl_textures, keys_of(textures))
        &&& before.layers().bundles.contains_key(key) ==> self.graph().cells().len()
            == before.graph().cells().len() && self.jobs() == before.jobs() && self.layers()
            == before.layers()
    }

    /// What is at fault with a request for a bundle, if anything is: the
    /// fault of the shader, or else that of the mesh, or else that of the
    /// first texture that has one. Keys that their stage holds already are
    /// not looked at again.
    pub fn first_fault(
        &self,
        mesh_key: &Descriptor,
        shader_program_key: &Descriptor,
        texture_keys: &Vec<Descriptor>,
    ) -> (fault: Option<ShapeError>)
        requires
            self.wf(),
        ensures
            fault is None <==> request_fault(
                self.layers(),
                mesh_key@,
                shader_program_key@,
                views_of(texture_keys@),
            ) is None,
            fault matches Some(error) ==> request_fault(
                self.layers(),
                mesh_key@,
                shader_program_key@,
                views_of(texture_keys@),
            ) == Some(error@),
    {
        match find_key_fault(&self.gl_shader_programs, JobKind::ShaderProgram, shader_program_key) {
            Some(error) => {
                return Some(error);
            },
            None => {},
        }
        match find_key_fault(&self.meshes, JobKind::Mesh, mesh_key) {
            Some(error) => {
                return Some(error);
            },
            None => {},
        }
        let ghost views = views_of(texture_keys@);
        let ghost layer = self.layers().textures;
        proof {
            assert(views.skip(0) =~= views);
        }
        let mut i: usize = 0;
        while i < texture_keys.len()
            invariant
                i <= texture_keys@.len(),
                self.wf(),
                views == views_of(texture_keys@),
                layer == self.layers().textures,
                key_fault(self.layers().programs, JobKind::ShaderProgram, shader_program_key@) is None,
                key_fault(self.layers().meshes, JobKind::Mesh, mesh_key@) is None,
                textures_fault(layer, views) == textures_fault(layer, views.skip(i as int)),
            decreases texture_keys@.len() - i,
        {
            proof {
                assert(views.skip(i as int)[0] == texture_keys@[i as int]@);
                assert(views.skip(i as int).skip(1) =~= views.skip(i + 1));
            }
            match find_key_fault(&self.textures, JobKind::Texture, &texture_keys[i]) {
                Some(error) => {
                    return Some(error);
                },
                None => {},
            }
            i += 1;
        }
        proof {
            assert(views.skip(i as int).len() == 0);
        }
        None
    }

    /// The promise of the bundle of a mesh, a shader and textures: the join
    /// of the program, the vertex array and the uploaded textures, in the
    /// order of the texture descriptors.
    ///
    /// A request with a descriptor that is new to its stage and has not
    /// the shape of its kind is refused, with the error that names what is
    /// at fault, and leaves everything as it was. Otherwise whatever the
    /// request has in common with earlier requests is taken from the
    /// caches; only what is new is added to the graph, and only what needs
    /// decoding or linking for the first time adds a job. An equal request
    /// made before gives the promise that it gave then and adds nothing.
    pub fn get(
        &mut self,
        mesh_key: &Descriptor,
        shader_program_key: &Descriptor,
        texture_keys: Vec<Descriptor>,
    ) -> (outcome: Result<Promise, ShapeError>)
        requires
            old(self).wf(),
        ensures
            final(self).wf(),
            outcome is Err <==> request_fault(
                old(self).layers(),
                mesh_key@,
                shader_program_key@,
                views_of(texture_keys@),
            ) is Some,
            outcome matches Err(error) ==> request_fault(
                old(self).layers(),
                mesh_key@,
                shader_program_key@,
                views_of(texture_keys@),
            ) == Some(error@) && *final(self) == *old(self),
            outcome matches Ok(bundle) ==> final(self).answers(
                old(self),
                mesh_key@,
                shader_program_key@,
                views_of(texture_keys@),
                bundle,
            ),
    {
        match self.first_fault(mesh_key, shader_program_key, &texture_keys) {
            Some(error) => Err(error),
            None => Ok(self.build(mesh_key, shader_program_key, texture_keys)),
        }
    }

    /// What the bundle stage leaves behind is sound and follows what was
    /// before.
    proof fn lemma_bundle_stage_follows(
        &self,
        before: &Self,
        mesh: DescriptorView,
        shader: DescriptorView,
        textures: Seq<DescriptorView>,
        promise: Promise,
    )
        requires
            before.wf(),
            self.caches_wf(),
            self.same_constructors(before),
            self.graph().wf(),
            self.graph().extends(&before.graph()),
            self.jobs() == before.jobs(),
            before.layers().bundles.contains_key(bundle_key(mesh, shader, textures))
                ==> self.graph().cells().len() == before.graph().cells().len(),
            !before.layers().bundles.contains_key(bundle_key(mesh, shader, textures)) ==> promise.index
                == before.graph().cells().len() && self.graph().cells().len()
                == before.graph().cells().len() + 1,
            before.layers().programs.contains_key(shader),
            before.layers().vertex_arrays.contains_key(pair_key(mesh, shader)),
            forall|i: int|
                0 <= i < textures.len() ==> before.layers().gl_textures.contains_key(
                    #[trigger] textures[i],
                ),
            requested(
                before.layers().bundles,
                bundle_key(mesh, shader, textures),
                promise,
                self.layers().bundles,
            ),
            self.layers() == (Layers { bundles: self.layers().bundles, ..before.layers() }),
            !before.layers().bundles.contains_key(bundle_key(mesh, shader, textures)) ==> {
                &&& self.graph().contains(promise)
                &&& self.graph().sources()[promise.index as int] is Join
                &&& self.graph().sources()[promise.index as int]->inputs@ == bundle_inputs(
                    before.layers().programs[shader],
                    before.layers().vertex_arrays[pair_key(mesh, shader)],
                    before.layers().gl_textures,
                    textures,
                )
                &&& self.graph().sources()[promise.index as int]->assemble
                    == before.assemble_bundle()
            },
        ensures
            self.wf(),
            self.follows(before),
    {
        assert(self.jobs().subrange(0, before.jobs().len() as int) =~= before.jobs());
        self.lemma_layers_kept(before);
        if !before.layers().bundles.contains_key(bundle_key(mesh, shader, textures)) {
            assert(entered(
                before.layers(),
                self.layers(),
                Stage::Bundles,
                bundle_key(mesh, shader, textures),
                promise,
            ));
        }
        let g = self.graph();
        let l = self.layers();
        let l0 = before.layers();
        assert((Layers { vertex_arrays: l0.vertex_arrays, ..l }) == l);
        let lb = Layers { bundles: l0.bundles, ..l };
        assert forall|m: DescriptorView, s: DescriptorView, ts: Seq<DescriptorView>| #[trigger]
            l.bundles.contains_key(bundle_key(m, s, ts)) implies {
            let joined = l.bundles[bundle_key(m, s, ts)];
            &&& l.programs.contains_key(s)
            &&& l.vertex_arrays.contains_key(pair_key(m, s))
            &&& forall|i: int| 0 <= i < ts.len() ==> l.gl_textures.contains_key(#[trigger] ts[i])
            &&& g.contains(joined)
            &&& g.sources()[joined.index as int] is Join
            &&& g.sources()[joined.index as int]->inputs@ == bundle_inputs(
                l.programs[s],
                l.vertex_arrays[pair_key(m, s)],
                l.gl_textures,
                ts,
            )
            &&& g.sources()[joined.index as int]->assemble == self.assemble_bundle()
        } by {
            if l0.bundles.contains_key(bundle_key(m, s, ts)) {
                assert(lb.bundles.contains_key(bundle_key(m, s, ts)));
            } else {
                assert(bundle_key(m, s, ts) == bundle_key(mesh, shader, textures));
                let a = seq![m, s, DescriptorView::Sequence(ts)];
                let b = seq![mesh, shader, DescriptorView::Sequence(textures)];
                assert(a[0] == b[0]);
                assert(a[1] == b[1]);
                assert(a[2] == b[2]);
            }
        }
    }
}


impl<T, F: Fn(&T) -> T + Copy, J: Fn(Vec<&T>) -> T + Copy> Resources<T, F, J> {
    /// The caches, the jobs and the constructors are those of `before`.
    pub open spec fn same_requests(&self, before: &Self) -> bool {
        &&& self.layers() == before.layers()
        &&& self.jobs() == before.jobs()
        &&& self.upload_mesh() == before.upload_mesh()
        &&& self.upload_texture() == before.upload_texture()
        &&& self.build_vertex_array() == before.build_vertex_array()
        &&& self.assemble_bundle() == before.assemble_bundle()
    }

    /// Resources stay sound when promises are settled and nothing else
    /// changes but the awaited results.
    proof fn lemma_settlement_keeps_wf(&self, before: &Self)
        requires
            before.wf(),
            self.caches_wf(),
            self.same_requests(before),
            self.graph().wf(),
            self.graph().keeps_shape(&before.graph()),
            self.runner().within(&self.graph()),
        ensures
            self.wf(),
    {
        let g = self.graph();
        let g0 = before.graph();
        let l = self.layers();
        assert(g0.sources().len() == g0.cells().len());
        assert forall|key: DescriptorView| #[trigger] l.gl_meshes.contains_key(key) implies l.meshes.contains_key(
            key,
        ) && g.contains(l.gl_meshes[key]) && g.sources()[l.gl_meshes[key].index as int] == (
        Source::<F, J>::Then { parent: l.meshes[key].index, transform: self.upload_mesh() }) by {
            assert(g0.contains(l.gl_meshes[key]));
            assert(g.sources()[l.gl_meshes[key].index as int] == g0.sources()[l.gl_meshes[key].index as int]);
        }
        assert forall|key: DescriptorView| #[trigger] l.gl_textures.contains_key(key) implies l.textures.contains_key(
            key,
        ) && g.contains(l.gl_textures[key]) && g.sources()[l.gl_textures[key].index as int] == (
        Source::<F, J>::Then { parent: l.textures[key].index, transform: self.upload_texture() }) by {
            assert(g0.contains(l.gl_textures[key]));
            assert(g.sources()[l.gl_textures[key].index as int] == g0.sources()[l.gl_textures[key].index as int]);
        }
        assert forall|mesh: DescriptorView, shader: DescriptorView| #[trigger]
            l.vertex_arrays.contains_key(pair_key(mesh, shader)) implies {
            let joined = l.vertex_arrays[pair_key(mesh, shader)];
            &&& l.programs.contains_key(shader)
            &&& l.gl_meshes.contains_key(mesh)
            &&& g.contains(joined)
            &&& g.sources()[joined.index as int] is Join
            &&& g.sources()[joined.index as int]->inputs@ == seq![
                l.programs[shader].index,
                l.gl_meshes[mesh].index,
            ]
            &&& g.sources()[joined.index as int]->assemble == self.build_vertex_array()
        } by {
            let joined = l.vertex_arrays[pair_key(mesh, shader)];
            assert(g0.contains(joined));
            assert(g.sources()[joined.index as int] == g0.sources()[joined.index as int]);
        }
        assert forall|mesh: DescriptorView, shader: DescriptorView, textures: Seq<DescriptorView>| #[trigger]
            l.bundles.contains_key(bundle_key(mesh, shader, textures)) implies {
            let joined = l.bundles[bundle_key(mesh, shader, textures)];
            &&& l.programs.contains_key(shader)
            &&& l.vertex_arrays.contains_key(pair_key(mesh, shader))
            &&& forall|i: int|
                0 <= i < textures.len() ==> l.gl_textures.contains_key(#[trigger] textures[i])
            &&& g.contains(joined)
            &&& g.sources()[joined.index as int] is Join
            &&& g.sources()[joined.index as int]->inputs@ == bundle_inputs(
                l.programs[shader],
                l.vertex_arrays[pair_key(mesh, shader)],
                l.gl_textures,
                textures,
            )
            &&& g.sources()[joined.index as int]->assemble == self.assemble_bundle()
        } by {
            let joined = l.bundles[bundle_key(mesh, shader, textures)];
            assert(g0.contains(joined));
            assert(g.sources()[joined.index as int] == g0.sources()[joined.index as int]);
        }
        assert forall|key: DescriptorView| #[trigger] l.programs.contains_key(key) implies g.contains(
            l.programs[key],
        ) && g.sources()[l.programs[key].index as int] is Root by {
            assert(g0.contains(l.programs[key]));
            assert(g.sources()[l.programs[key].index as int] == g0.sources()[l.programs[key].index as int]);
        }
        assert forall|key: DescriptorView| #[trigger] l.meshes.contains_key(key) implies g.contains(
            l.meshes[key],
        ) && g.sources()[l.meshes[key].index as int] is Root by {
            assert(g0.contains(l.meshes[key]));
            assert(g.sources()[l.meshes[key].index as int] == g0.sources()[l.meshes[key].index as int]);
        }
        assert forall|key: DescriptorView| #[trigger] l.textures.contains_key(key) implies g.contains(
            l.textures[key],
        ) && g.sources()[l.textures[key].index as int] is Root by {
            assert(g0.contains(l.textures[key]));
            assert(g.sources()[l.textures[key].index as int] == g0.sources()[l.textures[key].index as int]);
        }
    }

    /// Enters a program that was linked beforehand, under a key of any
    /// shape: the promise for the key is settled with the program from the
    /// start, and no job is added. Where the cache holds the key already,
    /// its promise is returned and nothing changes.
    pub fn insert_program(&mut self, key: &Descriptor, program: T) -> (promise: Promise)
        requires
            old(self).wf(),
        ensures
            final(self).wf(),
            final(self).same_constructors(old(self)),
            final(self).jobs() == old(self).jobs(),
            requested(old(self).layers().programs, key@, promise, final(self).layers().programs),
            final(self).layers() == (Layers {
                programs: final(self).layers().programs,
                ..old(self).layers()
            }),
            final(self).graph().extends(&old(self).graph()),
            final(self).graph().contains(promise),
            old(self).layers().programs.contains_key(key@) ==> final(self).graph().cells().len() == old(self).graph().cells().len(),
            !old(self).layers().programs.contains_key(key@) ==> {
                &&& promise.index == old(self).graph().cells().len()
                &&& final(self).graph().cells().len() == old(self).graph().cells().len() + 1
                &&& final(self).graph().cells()[promise.index as int].value == Some(program)
            },
    {
        match self.gl_shader_programs.get(key) {
            Some(promise) => {
                proof {
                    assert(self.graph().extends(&old(self).graph()));
                    assert(old(self).layers().programs.contains_key(key@));
                }
                promise
            },
            None => {
                let promise = Promise::resolved(&mut self.graph, program);
                self.gl_shader_programs.insert(key.clone(), promise);
                proof {
                    let g = self.graph();
                    let g0 = old(self).graph();
                    assert(g.extends(&g0));
                    self.lemma_layers_kept(old(self));
                    let l = self.layers();
                    assert forall|k: DescriptorView| #[trigger] l.programs.contains_key(k) implies g.contains(
                        l.programs[k],
                    ) && g.sources()[l.programs[k].index as int] is Root by {
                        if k != key@ {
                            assert(old(self).layers().programs.contains_key(k));
                        }
                    }
                    assert((Layers { vertex_arrays: old(self).layers().vertex_arrays, ..l }) == l);
                    assert((Layers { bundles: old(self).layers().bundles, ..l }) == l);
                }
                promise
            },
        }
    }

    /// The promises.
    pub fn promises(&self) -> (graph: &PromiseGraph<T, F, J>)
        ensures
            *graph == self.graph(),
    {
        &self.graph
    }

    /// The value of a promise, if it has settled with one.
    pub fn value<'a>(&'a self, promise: Promise) -> (seen: PromiseValue<'a, T>)
        requires
            self.graph().contains(promise),
        ensures
            seen@ == self.graph().cells()[promise.index as int].value,
    {
        promise.value(&self.graph)
    }

    /// Hands over the open jobs, from the oldest to the youngest, and
    /// leaves none behind.
    pub fn take_jobs(&mut self) -> (taken: Vec<Job>)
        requires
            old(self).wf(),
        ensures
            final(self).wf(),
            taken@ == old(self).jobs(),
            final(self).jobs().len() == 0,
            final(self).graph() == old(self).graph(),
            final(self).layers() == old(self).layers(),
            final(self).same_constructors(old(self)),
    {
        let mut taken: Vec<Job> = Vec::new();
        std::mem::swap(&mut self.jobs, &mut taken);
        taken
    }

    /// Settles a root promise with the value that was constructed for it,
    /// and with it whatever that decides. See [`Promise::resolve`].
    pub fn resolve(&mut self, promise: Promise, value: T) -> (outcome: Result<
        Vec<Promise>,
        SettleError,
    >)
        requires
            old(self).wf(),
            old(self).graph().contains(promise),
        ensures
            final(self).wf(),
            final(self).same_requests(old(self)),
            final(self).runner() == old(self).runner(),
            outcome.is_ok() <==> old(self).graph().sources()[promise.index as int] is Root && old(self).graph().pending(promise.index as int),
            outcome == Err::<Vec<Promise>, SettleError>(SettleError::Derived) <==> !(old(self).graph().sources()[promise.index as int] is Root),
            outcome.is_err() ==> final(self).graph().cells() == old(self).graph().cells()
                && final(self).graph().sources() == old(self).graph().sources(),
            outcome.is_ok() ==> final(self).graph().resolved_from(&old(self).graph(), promise, value),
            outcome.is_ok() ==> final(self).graph().lists_settled(
                &old(self).graph(),
                outcome.unwrap()@,
            ) && outcome.unwrap()@[0] == promise,
    {
        let outcome = promise.resolve(&mut self.graph, value);
        proof {
            self.lemma_settlement_keeps_wf(old(self));
        }
        outcome
    }

    /// Settles a root promise with a failure, and with it every pending
    /// promise that depends on it. See [`Promise::reject`].
    pub fn reject(&mut self, promise: Promise, code: u64) -> (outcome: Result<
        Vec<Promise>,
        SettleError,
    >)
        requires
            old(self).wf(),
            old(self).graph().contains(promise),
        ensures
            final(self).wf(),
            final(self).same_requests(old(self)),
            final(self).runner() == old(self).runner(),
            outcome.is_ok() <==> old(self).graph().sources()[promise.index as int] is Root && old(self).graph().pending(promise.index as int),
            outcome == Err::<Vec<Promise>, SettleError>(SettleError::Derived) <==> !(old(self).graph().sources()[promise.index as int] is Root),
            outcome.is_err() ==> final(self).graph().cells() == old(self).graph().cells()
                && final(self).graph().sources() == old(self).graph().sources(),
            outcome.is_ok() ==> final(self).graph().rejected_from(
                &old(self).graph(),
                promise,
                Failure { origin: promise.index, code },
            ),
            outcome.is_ok() ==> final(self).graph().lists_settled(
                &old(self).graph(),
                outcome.unwrap()@,
            ) && outcome.unwrap()@[0] == promise,
    {
        let outcome = promise.reject(&mut self.graph, code);
        proof {
            self.lemma_settlement_keeps_wf(old(self));
        }
        outcome
    }

    /// Awaits the result of a worker for a promise: what arrives through
    /// `receiver` settles the promise at a later `update`.
    pub fn track(&mut self, promise: Promise, receiver: Receiver<Message<T>>)
        requires
            old(self).wf(),
            old(self).graph().contains(promise),
        ensures
            final(self).wf(),
            final(self).same_requests(old(self)),
            final(self).graph() == old(self).graph(),
            final(self).runner().tasks().len() == old(self).runner().tasks().len() + 1,
            final(self).runner().tasks().last().promise == promise,
    {
        let ghost awaited = self.async_runner.tasks();
        self.async_runner.track(AsyncPromise::bind(promise, receiver));
        proof {
            assert forall|i: int| 0 <= i < self.runner().tasks().len() implies self.graph().contains(
                (#[trigger] self.runner().tasks()[i]).promise,
            ) by {
                if i < awaited.len() {
                    assert(self.runner().tasks()[i] == awaited[i]);
                    assert(old(self).runner().tasks()[i] == awaited[i]);
                }
            }
            self.lemma_settlement_keeps_wf(old(self));
        }
    }

    /// Settles the promises whose results have arrived from the workers,
    /// without waiting for any. After that the results whose promise is
    /// still pending are awaited on, in their order, and no others. Returns
    /// the number of results that are awaited no longer. See
    /// [`AsyncRunner::try_resolve_all`].
    pub fn update(&mut self) -> (finished: usize)
        requires
            old(self).wf(),
        ensures
            final(self).wf(),
            final(self).same_requests(old(self)),
            final(self).graph().sources() == old(self).graph().sources(),
            final(self).graph().cells().len() == old(self).graph().cells().len(),
            final(self).runner().tasks() == awaiting(
                old(self).runner().tasks(),
                &final(self).graph(),
            ),
            finished + final(self).runner().tasks().len() == old(self).runner().tasks().len(),
            forall|d: int|
                0 <= d < old(self).graph().cells().len() && !old(self).graph().pending(d) ==> (
                #[trigger] final(self).graph().cells()[d]) == old(self).graph().cells()[d],
            forall|d: int|
                0 <= d < old(self).graph().cells().len() && old(self).graph().sources()[d] is Root
                    && !(exists|i: int|
                    0 <= i < old(self).runner().tasks().len() && (
                    #[trigger] old(self).runner().tasks()[i]).promise.index == d) ==> (
                #[trigger] final(self).graph().cells()[d]) == old(self).graph().cells()[d],
    {
        let finished = self.async_runner.try_resolve_all(&mut self.graph);
        proof {
            self.lemma_settlement_keeps_wf(old(self));
        }
        finished
    }
}

} // verus!
