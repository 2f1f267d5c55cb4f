use deferred_cache::descriptor::Descriptor;
use deferred_cache::promise::Failure;
use deferred_cache::renderer::Renderer;
use deferred_cache::pon_to_resource::{MeshSource, ShapeError, TextureSource};
use deferred_cache::resources::{Job, JobKind, JobSource, Resources};
use deferred_cache::viewport::{
    camera_changed, changed_with_key, renderable_changed, transform_changed, DescriptorError,
    EntityProperties, PropRef, ViewportSubSystem,
};

type Transform = fn(&String) -> String;
type Assemble = fn(Vec<&String>) -> String;
type Viewport = ViewportSubSystem<String, Transform, Assemble, i32, ()>;

fn upload(raw: &String) -> String {
    format!("gl({})", raw)
}

fn put_together(parts: Vec<&String>) -> String {
    let names: Vec<String> = parts.into_iter().cloned().collect();
    format!("[{}]", names.join(","))
}

fn viewport() -> Viewport {
    let mut resources = Resources::new(
        upload as Transform,
        upload as Transform,
        put_together as Assemble,
        put_together as Assemble,
    );
    resources.insert_program(&text("basic"), "basic".to_string());
    ViewportSubSystem::new(resources, Renderer::new(0))
}

fn typed(kind: &str, data: Descriptor) -> Descriptor {
    Descriptor::named(kind.to_string(), data)
}

fn mesh(name: &str) -> Descriptor {
    typed("mesh_from_resource", text(name))
}

fn texture(name: &str) -> Descriptor {
    typed("texture_from_file", text(name))
}

fn glow() -> Descriptor {
    typed(
        "shader_program",
        Descriptor::sequence(vec![
            Descriptor::named("vertex".to_string(), typed("static_shader", text("glow"))),
            Descriptor::named("fragment".to_string(), typed("static_shader", text("glow"))),
        ]),
    )
}

fn text(value: &str) -> Descriptor {
    Descriptor::Text(value.to_string())
}

fn properties(mesh: &str, diffuse: &str) -> EntityProperties<i32, ()> {
    EntityProperties {
        shader: None,
        mesh: Some(self::mesh(mesh)),
        textures: None,
        diffuse: Some(texture(diffuse)),
        transform: 1,
        uniforms: (),
        alpha: None,
    }
}

fn construct(job: &Job) -> String {
    match &job.source {
        JobSource::Mesh(MeshSource::FromResource { resource_id }) => resource_id.clone(),
        JobSource::Texture(TextureSource::File { filename }) => filename.clone(),
        JobSource::ShaderProgram(_) => "glow".to_string(),
        _ => String::new(),
    }
}

fn settle_all(viewport: &mut Viewport) -> usize {
    let jobs = viewport.resources.take_jobs();
    for job in &jobs {
        viewport.resources.resolve(job.promise, construct(job)).unwrap();
    }
    jobs.len()
}

fn change(entity_id: u64, key: &str) -> PropRef {
    PropRef { entity_id, property_key: key.to_string() }
}

#[test]
fn entity_becomes_a_node_when_its_bundle_arrives() {
    let mut viewport = viewport();
    assert_eq!(viewport.renderer_add(&1, properties("cube", "wood")).unwrap(), true);
    assert_eq!(viewport.pending_add.len(), 1);
    assert_eq!(viewport.pending_add[0].config.texture_ids, vec!["diffuse".to_string()]);
    let report = viewport.update();
    assert!(report.added.is_empty() && report.failed.is_empty() && !report.first_load_done);
    assert_eq!(viewport.pending_add.len(), 1);
    assert_eq!(settle_all(&mut viewport), 2);
    let report = viewport.update();
    assert_eq!(report.added, vec![1]);
    assert!(report.first_load_done);
    assert!(viewport.first_load_timed);
    assert!(viewport.pending_add.is_empty());
    let node = &viewport.renderer.opaque_nodes()[0];
    assert_eq!(node.id, 1);
    assert_eq!(
        viewport.resources.value(node.resources).clone(),
        Some("[basic,[basic,gl(cube)],gl(wood)]".to_string())
    );
    let report = viewport.update();
    assert!(report.added.is_empty() && !report.first_load_done);
}

#[test]
fn entity_without_mesh_or_textures_is_not_drawn() {
    let mut viewport = viewport();
    let mut no_mesh = properties("cube", "wood");
    no_mesh.mesh = None;
    assert_eq!(viewport.renderer_add(&1, no_mesh).unwrap(), false);
    let mut no_textures = properties("cube", "wood");
    no_textures.diffuse = None;
    assert_eq!(viewport.renderer_add(&2, no_textures).unwrap(), false);
    assert!(viewport.pending_add.is_empty());
    assert!(viewport.resources.take_jobs().is_empty());
    assert_eq!(viewport.resources.promises().len(), 1);
}

#[test]
fn textures_that_are_no_object_are_refused() {
    let mut viewport = viewport();
    let mut wrong = properties("cube", "wood");
    wrong.textures = Some(text("wood"));
    match viewport.renderer_add(&1, wrong) {
        Err(DescriptorError::NotAnObject { field }) => assert_eq!(field, "textures"),
        other => panic!("unexpected outcome {:?}", other),
    }
    assert!(viewport.pending_add.is_empty());
    assert_eq!(viewport.resources.promises().len(), 1);
}

#[test]
fn malformed_descriptor_is_refused_with_its_fault() {
    let mut viewport = viewport();
    let mut wrong = properties("cube", "wood");
    wrong.mesh = Some(typed("mesh_from_file", text("cube.x")));
    match viewport.renderer_add(&1, wrong) {
        Err(DescriptorError::Malformed { error: ShapeError::UnrecognizedType { kind } }) => {
            assert_eq!(kind, "mesh_from_file")
        }
        other => panic!("unexpected outcome {:?}", other),
    }
    let mut wrong = properties("cube", "wood");
    wrong.diffuse = Some(text("wood.png"));
    match viewport.renderer_add(&1, wrong) {
        Err(DescriptorError::Malformed { error: ShapeError::NotTyped { field } }) => {
            assert_eq!(field, "texture")
        }
        other => panic!("unexpected outcome {:?}", other),
    }
    assert!(viewport.pending_add.is_empty());
    assert!(viewport.resources.take_jobs().is_empty());
    assert_eq!(viewport.resources.promises().len(), 1);
}

#[test]
fn alpha_decides_the_kind_and_is_off_by_default() {
    let mut viewport = viewport();
    let mut blended = properties("a", "wood");
    blended.alpha = Some(true);
    let mut solid = properties("b", "wood");
    solid.alpha = Some(false);
    viewport.renderer_add(&1, blended).unwrap();
    viewport.renderer_add(&2, solid).unwrap();
    viewport.renderer_add(&3, properties("c", "wood")).unwrap();
    assert_eq!(viewport.pending_add[0].config.alpha, true);
    assert_eq!(viewport.pending_add[1].config.alpha, false);
    assert_eq!(viewport.pending_add[2].config.alpha, false);
    settle_all(&mut viewport);
    viewport.update();
    assert_eq!(viewport.renderer.translucent_nodes().len(), 1);
    assert_eq!(viewport.renderer.opaque_nodes().len(), 2);
}

#[test]
fn textures_object_gives_names_and_order() {
    let mut viewport = viewport();
    let mut many = properties("cube", "unused");
    many.shader = Some(glow());
    many.alpha = Some(true);
    many.textures = Some(Descriptor::sequence(vec![
        Descriptor::named("diffuse".to_string(), texture("wood")),
        Descriptor::named("normal".to_string(), texture("bumps")),
    ]));
    assert_eq!(viewport.renderer_add(&5, many).unwrap(), true);
    assert_eq!(
        viewport.pending_add[0].config.texture_ids,
        vec!["diffuse".to_string(), "normal".to_string()]
    );
    assert_eq!(settle_all(&mut viewport), 4);
    let report = viewport.update();
    assert_eq!(report.added, vec![5]);
    let node = &viewport.renderer.translucent_nodes()[0];
    assert_eq!(
        viewport.resources.value(node.resources).clone(),
        Some("[glow,[glow,gl(cube)],gl(wood),gl(bumps)]".to_string())
    );
    assert!(viewport.renderer.opaque_nodes().is_empty());
}

#[test]
fn discarded_request_never_becomes_a_node() {
    let mut viewport = viewport();
    viewport.renderer_add(&1, properties("cube", "wood")).unwrap();
    viewport.renderer_remove(&1);
    assert!(viewport.pending_add.is_empty());
    let nodes = viewport.resources.promises().len();
    assert_eq!(settle_all(&mut viewport), 2);
    let report = viewport.update();
    assert!(report.added.is_empty());
    assert!(viewport.renderer.opaque_nodes().is_empty());
    // a fresh request for the same finds everything constructed
    viewport.renderer_add(&2, properties("cube", "wood")).unwrap();
    assert!(viewport.resources.take_jobs().is_empty());
    assert_eq!(viewport.resources.promises().len(), nodes);
    let report = viewport.update();
    assert_eq!(report.added, vec![2]);
    assert_eq!(viewport.renderer.opaque_nodes()[0].id, 2);
}

#[test]
fn failed_texture_is_reported_and_dropped() {
    let mut viewport = viewport();
    viewport.renderer_add(&1, properties("cube", "wood")).unwrap();
    viewport.renderer_add(&2, properties("cube", "stone")).unwrap();
    let jobs = viewport.resources.take_jobs();
    let mut origin = 0;
    for job in &jobs {
        if job.kind == JobKind::Texture && construct(job) == "wood" {
            origin = job.promise.index;
            viewport.resources.reject(job.promise, 2).unwrap();
        } else {
            viewport.resources.resolve(job.promise, construct(job)).unwrap();
        }
    }
    let report = viewport.update();
    assert_eq!(report.failed, vec![(1, Failure { origin, code: 2 })]);
    assert_eq!(report.added, vec![2]);
    assert!(viewport.pending_add.is_empty());
    assert_eq!(viewport.renderer.opaque_nodes().len(), 1);
    let report = viewport.update();
    assert!(report.failed.is_empty() && report.added.is_empty());
}

#[test]
fn sweep_keeps_the_order_of_those_that_wait() {
    let mut viewport = viewport();
    viewport.renderer_add(&1, properties("a", "wood")).unwrap();
    viewport.renderer_add(&2, properties("b", "wood")).unwrap();
    viewport.renderer_add(&3, properties("c", "wood")).unwrap();
    for job in viewport.resources.take_jobs() {
        if construct(&job) != "b" {
            let value = construct(&job);
            viewport.resources.resolve(job.promise, value).unwrap();
        }
    }
    let report = viewport.update();
    assert_eq!(report.added, vec![1, 3]);
    assert!(!report.first_load_done);
    assert_eq!(viewport.pending_add.len(), 1);
    assert_eq!(viewport.pending_add[0].id, 2);
}

#[test]
fn changes_name_the_entities_to_configure_anew() {
    let changes = vec![
        change(3, "mesh"),
        change(1, "transformed"),
        change(2, "alpha"),
        change(3, "diffuse"),
        change(4, "camera"),
        change(5, "uniforms"),
        change(2, "mesh"),
        change(6, "meshes"),
    ];
    assert_eq!(renderable_changed(&changes), vec![3, 2, 5]);
    assert_eq!(changed_with_key(&changes, &"transformed".to_string()), vec![1]);
    assert_eq!(transform_changed(&changes), vec![1]);
    assert_eq!(camera_changed(&changes), vec![4]);
    assert_eq!(changed_with_key(&changes, &"mesh".to_string()), vec![3, 2]);
    assert!(changed_with_key(&changes, &"shader".to_string()).is_empty());
    assert!(renderable_changed(&vec![]).is_empty());
}

#[test]
fn changed_entities_leave_renderer_and_pending_set() {
    let mut viewport = viewport();
    viewport.renderer_add(&1, properties("a", "wood")).unwrap();
    settle_all(&mut viewport);
    viewport.update();
    viewport.renderer_add(&2, properties("b", "wood")).unwrap();
    viewport.renderer_add(&3, properties("c", "wood")).unwrap();
    let changed = viewport.on_property_value_change(&vec![
        change(1, "mesh"),
        change(2, "alpha"),
        change(3, "transformed"),
    ]);
    assert_eq!(changed, vec![1, 2]);
    assert!(viewport.renderer.opaque_nodes().is_empty());
    assert_eq!(viewport.pending_add.len(), 1);
    assert_eq!(viewport.pending_add[0].id, 3);
}
