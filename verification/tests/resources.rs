use deferred_cache::descriptor::Descriptor;
use deferred_cache::pon_to_resource::{MeshSource, ShaderStage, ShapeError, TextureSource};
use deferred_cache::promise::Failure;
use deferred_cache::resources::{Job, JobKind, JobSource, Resources};
use std::sync::mpsc::channel;

#[derive(Clone, Debug, PartialEq)]
enum Item {
    Mesh(String),
    GlMesh(String),
    Program(String),
    VertexArray(String, String),
    Image(String),
    GlTexture(String),
    Bundle(Vec<Item>),
}

type Transform = fn(&Item) -> Item;
type Assemble = fn(Vec<&Item>) -> Item;
type Session = Resources<Item, Transform, Assemble>;

fn upload_mesh(mesh: &Item) -> Item {
    match mesh {
        Item::Mesh(name) => Item::GlMesh(name.clone()),
        other => other.clone(),
    }
}

fn upload_texture(image: &Item) -> Item {
    match image {
        Item::Image(name) => Item::GlTexture(name.clone()),
        other => other.clone(),
    }
}

fn build_vertex_array(parts: Vec<&Item>) -> Item {
    match (parts[0], parts[1]) {
        (Item::Program(program), Item::GlMesh(mesh)) => {
            Item::VertexArray(program.clone(), mesh.clone())
        }
        _ => Item::Bundle(vec![]),
    }
}

fn assemble_bundle(parts: Vec<&Item>) -> Item {
    Item::Bundle(parts.into_iter().cloned().collect())
}

fn session() -> Session {
    Resources::new(upload_mesh, upload_texture, build_vertex_array, assemble_bundle)
}

fn text(value: &str) -> Descriptor {
    Descriptor::Text(value.to_string())
}

fn typed(kind: &str, data: Descriptor) -> Descriptor {
    Descriptor::named(kind.to_string(), data)
}

fn mesh(name: &str) -> Descriptor {
    typed("mesh_from_resource", text(name))
}

fn texture(name: &str) -> Descriptor {
    typed("texture_from_file", text(name))
}

fn inline_texture() -> Descriptor {
    typed(
        "static_texture",
        Descriptor::sequence(vec![
            Descriptor::named(
                "pixels".to_string(),
                Descriptor::sequence(vec![
                    Descriptor::Integer(255),
                    Descriptor::Integer(0),
                    Descriptor::Integer(0),
                    Descriptor::Integer(255),
                ]),
            ),
            Descriptor::named("width".to_string(), Descriptor::Integer(1)),
            Descriptor::named("height".to_string(), Descriptor::Integer(1)),
        ]),
    )
}

fn shader(name: &str) -> Descriptor {
    typed(
        "shader_program",
        Descriptor::sequence(vec![
            Descriptor::named("vertex".to_string(), typed("static_shader", text(name))),
            Descriptor::named("fragment".to_string(), typed("shader_from_file", text(name))),
        ]),
    )
}

fn count(jobs: &[Job], kind: JobKind) -> usize {
    jobs.iter().filter(|job| job.kind == kind).count()
}

fn name_of(job: &Job) -> String {
    match &job.source {
        JobSource::Mesh(MeshSource::FromResource { resource_id }) => resource_id.clone(),
        JobSource::Texture(TextureSource::File { filename }) => filename.clone(),
        JobSource::ShaderProgram(source) => match &source.vertex {
            ShaderStage::Static { source } => source.clone(),
            ShaderStage::File { filename } => filename.clone(),
        },
        _ => String::new(),
    }
}

fn construct(job: &Job) -> Item {
    match job.kind {
        JobKind::Mesh => Item::Mesh(name_of(job)),
        JobKind::ShaderProgram => Item::Program(name_of(job)),
        JobKind::Texture => Item::Image(name_of(job)),
    }
}

fn bundle(program: &str, mesh: &str, textures: &[&str]) -> Item {
    let mut parts = vec![
        Item::Program(program.to_string()),
        Item::VertexArray(program.to_string(), mesh.to_string()),
    ];
    for texture in textures {
        parts.push(Item::GlTexture(texture.to_string()));
    }
    Item::Bundle(parts)
}

#[test]
fn first_request_asks_for_every_raw_resource_once() {
    let mut resources = session();
    let bundle = resources
        .get(&mesh("A"), &shader("S"), vec![texture("T1"), texture("T2"), texture("T1")])
        .unwrap();
    let jobs = resources.take_jobs();
    assert_eq!(count(&jobs, JobKind::Mesh), 1);
    assert_eq!(count(&jobs, JobKind::ShaderProgram), 1);
    assert_eq!(count(&jobs, JobKind::Texture), 2);
    assert_eq!(jobs.len(), 4);
    assert!(bundle.is_pending(resources.promises()));
    assert!(resources.take_jobs().is_empty());
}

#[test]
fn jobs_carry_what_their_descriptor_asks_for() {
    let mut resources = session();
    resources.get(&mesh("A"), &shader("S"), vec![texture("T1"), inline_texture()]).unwrap();
    let jobs = resources.take_jobs();
    assert_eq!(jobs.len(), 4);
    for job in &jobs {
        match (&job.kind, &job.source) {
            (JobKind::ShaderProgram, JobSource::ShaderProgram(source)) => {
                assert!(job.descriptor.equals(&shader("S")));
                assert!(matches!(&source.fragment, ShaderStage::File { filename } if filename == "S"));
                assert!(!job.on_worker());
            }
            (JobKind::Mesh, JobSource::Mesh(MeshSource::FromResource { resource_id })) => {
                assert_eq!(resource_id, "A");
                assert!(!job.on_worker());
            }
            (JobKind::Texture, JobSource::Texture(TextureSource::File { filename })) => {
                assert_eq!(filename, "T1");
                assert!(job.on_worker());
            }
            (JobKind::Texture, JobSource::Texture(TextureSource::Static { width, height, pixels })) => {
                assert_eq!((*width, *height), (1, 1));
                assert_eq!(pixels, &vec![255, 0, 0, 255]);
                assert!(!job.on_worker());
            }
            other => panic!("unexpected job {:?}", other),
        }
    }
}

#[test]
fn shared_mesh_and_texture_are_constructed_once() {
    let mut resources = session();
    let first = resources.get(&mesh("A"), &shader("S"), vec![texture("T1")]).unwrap();
    let first_jobs = resources.take_jobs();
    assert_eq!(count(&first_jobs, JobKind::Mesh), 1);
    assert_eq!(count(&first_jobs, JobKind::Texture), 1);
    assert_eq!(count(&first_jobs, JobKind::ShaderProgram), 1);
    let nodes_after_first = resources.promises().len();

    let second = resources.get(&mesh("A"), &shader("S2"), vec![texture("T1")]).unwrap();
    let second_jobs = resources.take_jobs();
    assert_eq!(count(&second_jobs, JobKind::Mesh), 0);
    assert_eq!(count(&second_jobs, JobKind::Texture), 0);
    assert_eq!(count(&second_jobs, JobKind::ShaderProgram), 1);
    assert_eq!(name_of(&second_jobs[0]), "S2");
    assert_ne!(first, second);
    // one program, one vertex array and one bundle are new
    assert_eq!(resources.promises().len(), nodes_after_first + 3);

    for job in first_jobs.iter().chain(second_jobs.iter()) {
        resources.resolve(job.promise, construct(job)).unwrap();
    }
    assert_eq!(resources.value(first).clone(), Some(bundle("S", "A", &["T1"])));
    assert_eq!(resources.value(second).clone(), Some(bundle("S2", "A", &["T1"])));
}

#[test]
fn equal_requests_share_one_bundle() {
    let mut resources = session();
    let first = resources.get(&mesh("A"), &shader("S"), vec![texture("T1")]).unwrap();
    let nodes = resources.promises().len();
    resources.take_jobs();
    let again = resources.get(&mesh("A"), &shader("S"), vec![texture("T1")]).unwrap();
    assert_eq!(first, again);
    assert_eq!(resources.promises().len(), nodes);
    assert!(resources.take_jobs().is_empty());
}

#[test]
fn settled_request_made_again_constructs_nothing() {
    let mut resources = session();
    let first = resources.get(&mesh("A"), &shader("S"), vec![texture("T1")]).unwrap();
    for job in resources.take_jobs() {
        let item = construct(&job);
        resources.resolve(job.promise, item).unwrap();
    }
    let nodes = resources.promises().len();
    let again = resources.get(&mesh("A"), &shader("S"), vec![texture("T1")]).unwrap();
    assert_eq!(again, first);
    assert_eq!(resources.promises().len(), nodes);
    assert!(resources.take_jobs().is_empty());
    assert_eq!(resources.value(again).clone(), Some(bundle("S", "A", &["T1"])));
}

#[test]
fn order_of_textures_is_part_of_the_bundle() {
    let mut resources = session();
    let first = resources.get(&mesh("A"), &shader("S"), vec![texture("T1"), texture("T2")]).unwrap();
    let second = resources.get(&mesh("A"), &shader("S"), vec![texture("T2"), texture("T1")]).unwrap();
    assert_ne!(first, second);
    for job in resources.take_jobs() {
        let item = construct(&job);
        resources.resolve(job.promise, item).unwrap();
    }
    assert_eq!(resources.value(second).clone(), Some(bundle("S", "A", &["T2", "T1"])));
}

#[test]
fn request_after_settlement_is_settled_at_once() {
    let mut resources = session();
    resources.get(&mesh("A"), &shader("S"), vec![texture("T1")]).unwrap();
    for job in resources.take_jobs() {
        let item = construct(&job);
        resources.resolve(job.promise, item).unwrap();
    }
    let nodes = resources.promises().len();
    let other = resources.get(&mesh("A"), &shader("S"), vec![]).unwrap();
    assert!(resources.take_jobs().is_empty());
    assert_eq!(resources.promises().len(), nodes + 1);
    assert_eq!(resources.value(other).clone(), Some(bundle("S", "A", &[])));
}

#[test]
fn malformed_shader_is_refused_and_nothing_changes() {
    let mut resources = session();
    match resources.get(&mesh("A"), &typed("shader_from_web", text("S")), vec![texture("T1")]) {
        Err(ShapeError::UnrecognizedType { kind }) => assert_eq!(kind, "shader_from_web"),
        other => panic!("unexpected outcome {:?}", other),
    }
    assert_eq!(resources.promises().len(), 0);
    assert!(resources.take_jobs().is_empty());
    // the mesh of the refused request was not entered either
    resources.get(&mesh("A"), &shader("S"), vec![]).unwrap();
    assert_eq!(count(&resources.take_jobs(), JobKind::Mesh), 1);
}

#[test]
fn first_fault_in_order_is_reported() {
    let mut resources = session();
    let bad_mesh = typed("static_mesh", Descriptor::sequence(vec![]));
    let bad_texture = typed("texture_from_file", Descriptor::Integer(1));
    match resources.get(&bad_mesh, &text("plain"), vec![bad_texture.clone()]) {
        Err(ShapeError::NotTyped { field }) => assert_eq!(field, "shader"),
        other => panic!("unexpected outcome {:?}", other),
    }
    match resources.get(&bad_mesh, &shader("S"), vec![bad_texture.clone()]) {
        Err(ShapeError::NoSuchField { field }) => assert_eq!(field, "layout"),
        other => panic!("unexpected outcome {:?}", other),
    }
    match resources.get(&mesh("A"), &shader("S"), vec![texture("T1"), bad_texture.clone(), text("x")]) {
        Err(ShapeError::InvalidValue { field }) => assert_eq!(field, "texture_from_file"),
        other => panic!("unexpected outcome {:?}", other),
    }
    assert_eq!(resources.promises().len(), 0);
    assert!(resources.take_jobs().is_empty());
    assert!(resources.first_fault(&mesh("A"), &shader("S"), &vec![texture("T1")]).is_none());
    assert!(resources.first_fault(&mesh("A"), &shader("S"), &vec![text("x")]).is_some());
}

#[test]
fn inserted_program_serves_a_key_of_any_shape() {
    let mut resources = session();
    let basic = resources.insert_program(&text("basic"), Item::Program("basic".to_string()));
    assert_eq!(resources.value(basic).clone(), Some(Item::Program("basic".to_string())));
    assert!(resources.take_jobs().is_empty());
    assert_eq!(resources.insert_program(&text("basic"), Item::Program("other".to_string())), basic);
    assert_eq!(resources.promises().len(), 1);
    let bundle_promise = resources.get(&mesh("A"), &text("basic"), vec![]).unwrap();
    let jobs = resources.take_jobs();
    assert_eq!(jobs.len(), 1);
    assert_eq!(jobs[0].kind, JobKind::Mesh);
    resources.resolve(jobs[0].promise, Item::Mesh("A".to_string())).unwrap();
    assert_eq!(resources.value(bundle_promise).clone(), Some(bundle("basic", "A", &[])));
}

#[test]
fn failed_texture_fails_the_bundle() {
    let mut resources = session();
    let bundle = resources.get(&mesh("A"), &shader("S"), vec![texture("T1")]).unwrap();
    let jobs = resources.take_jobs();
    let mut origin = 0;
    for job in &jobs {
        if job.kind == JobKind::Texture {
            origin = job.promise.index;
            resources.reject(job.promise, 404).unwrap();
        }
    }
    assert_eq!(bundle.failure(resources.promises()), Some(Failure { origin, code: 404 }));
    assert_eq!(resources.value(bundle).clone(), None);
    for job in &jobs {
        if job.kind != JobKind::Texture {
            resources.resolve(job.promise, construct(job)).unwrap();
        }
    }
    assert_eq!(bundle.failure(resources.promises()), Some(Failure { origin, code: 404 }));
}

#[test]
fn worker_results_settle_on_update() {
    let mut resources = session();
    let bundle = resources.get(&mesh("A"), &shader("S"), vec![texture("T1")]).unwrap();
    let mut senders = Vec::new();
    for job in resources.take_jobs() {
        let (sender, receiver) = channel();
        resources.track(job.promise, receiver);
        senders.push((sender, construct(&job)));
    }
    assert_eq!(resources.update(), 0);
    assert!(bundle.is_pending(resources.promises()));
    for (sender, item) in senders {
        sender.send(Ok(item)).unwrap();
    }
    assert_eq!(resources.update(), 3);
    assert!(!bundle.is_pending(resources.promises()));
    assert!(resources.value(bundle).is_some());
    assert_eq!(resources.update(), 0);
}
