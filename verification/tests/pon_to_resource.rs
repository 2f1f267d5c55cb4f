use deferred_cache::descriptor::Descriptor;
use deferred_cache::pon_to_resource::{
    integer_field, integers_field, layout, pon_to_mesh, reals_field, pon_to_shader, shader_stage,
    pon_to_texture, MeshSource, ShaderStage, ShapeError, TextureSource,
};

fn text(value: &str) -> Descriptor {
    Descriptor::Text(value.to_string())
}

fn field(name: &str, value: Descriptor) -> Descriptor {
    Descriptor::named(name.to_string(), value)
}

fn typed(kind: &str, data: Descriptor) -> Descriptor {
    Descriptor::named(kind.to_string(), data)
}

fn object(fields: Vec<Descriptor>) -> Descriptor {
    Descriptor::sequence(fields)
}

fn integers(values: &[i64]) -> Descriptor {
    Descriptor::sequence(values.iter().map(|v| Descriptor::Integer(*v)).collect())
}

fn reals(values: &[f64]) -> Descriptor {
    Descriptor::sequence(values.iter().map(|v| Descriptor::Real(v.to_bits())).collect())
}

fn static_texture(pixels: &[i64], width: i64, height: i64) -> Descriptor {
    typed(
        "static_texture",
        object(vec![
            field("pixels", integers(pixels)),
            field("width", Descriptor::Integer(width)),
            field("height", Descriptor::Integer(height)),
        ]),
    )
}

#[test]
fn static_texture_gives_its_pixels() {
    match pon_to_texture(&static_texture(&[255, 0, 0, 255], 1, 1)).unwrap() {
        TextureSource::Static { width, height, pixels } => {
            assert_eq!((width, height), (1, 1));
            assert_eq!(pixels, vec![255, 0, 0, 255]);
        }
        other => panic!("unexpected source {:?}", other),
    }
}

#[test]
fn pixel_values_keep_their_low_byte() {
    match pon_to_texture(&static_texture(&[256, 257, -1, 511, 1, 2, 3, 4], 2, 1)).unwrap() {
        TextureSource::Static { pixels, .. } => assert_eq!(pixels, vec![0, 1, 255, 255, 1, 2, 3, 4]),
        other => panic!("unexpected source {:?}", other),
    }
}

#[test]
fn wrong_pixel_count_is_refused() {
    match pon_to_texture(&static_texture(&[1, 2, 3], 1, 1)) {
        Err(ShapeError::PixelCount { expected, found }) => {
            assert_eq!(expected, 4);
            assert_eq!(found, 3);
        }
        other => panic!("unexpected outcome {:?}", other),
    }
    match pon_to_texture(&static_texture(&[], 4294967295, 4294967295)) {
        Err(ShapeError::PixelCount { expected, found }) => {
            assert_eq!(expected, 4294967295u128 * 4294967295u128 * 4);
            assert_eq!(found, 0);
        }
        other => panic!("unexpected outcome {:?}", other),
    }
    assert!(pon_to_texture(&static_texture(&[], 0, 7)).is_ok());
}

#[test]
fn texture_fields_are_named_in_errors() {
    let no_pixels = typed("static_texture", object(vec![field("width", Descriptor::Integer(1))]));
    match pon_to_texture(&no_pixels) {
        Err(ShapeError::NoSuchField { field }) => assert_eq!(field, "pixels"),
        other => panic!("unexpected outcome {:?}", other),
    }
    let no_height = typed(
        "static_texture",
        object(vec![field("pixels", integers(&[])), field("width", Descriptor::Integer(0))]),
    );
    match pon_to_texture(&no_height) {
        Err(ShapeError::NoSuchField { field }) => assert_eq!(field, "height"),
        other => panic!("unexpected outcome {:?}", other),
    }
    let bad_width = typed(
        "static_texture",
        object(vec![
            field("pixels", integers(&[])),
            field("width", text("wide")),
            field("height", Descriptor::Integer(0)),
        ]),
    );
    match pon_to_texture(&bad_width) {
        Err(ShapeError::InvalidValue { field }) => assert_eq!(field, "width"),
        other => panic!("unexpected outcome {:?}", other),
    }
    let bad_pixels = typed("static_texture", object(vec![field("pixels", reals(&[1.0]))]));
    match pon_to_texture(&bad_pixels) {
        Err(ShapeError::InvalidValue { field }) => assert_eq!(field, "pixels"),
        other => panic!("unexpected outcome {:?}", other),
    }
}

#[test]
fn texture_from_file_gives_the_name() {
    match pon_to_texture(&typed("texture_from_file", text("wood.png"))).unwrap() {
        TextureSource::File { filename } => assert_eq!(filename, "wood.png"),
        other => panic!("unexpected source {:?}", other),
    }
    match pon_to_texture(&typed("texture_from_file", Descriptor::Integer(1))) {
        Err(ShapeError::InvalidValue { field }) => assert_eq!(field, "texture_from_file"),
        other => panic!("unexpected outcome {:?}", other),
    }
}

#[test]
fn unknown_texture_kind_is_refused() {
    match pon_to_texture(&typed("texture_from_web", text("x"))) {
        Err(ShapeError::UnrecognizedType { kind }) => assert_eq!(kind, "texture_from_web"),
        other => panic!("unexpected outcome {:?}", other),
    }
    match pon_to_texture(&text("wood.png")) {
        Err(ShapeError::NotTyped { field }) => assert_eq!(field, "texture"),
        other => panic!("unexpected outcome {:?}", other),
    }
}

fn program(vertex: Descriptor, fragment: Descriptor) -> Descriptor {
    typed("shader_program", object(vec![field("vertex", vertex), field("fragment", fragment)]))
}

#[test]
fn shader_program_gives_both_stages() {
    let source = pon_to_shader(&program(
        typed("shader_from_file", text("basic.vs")),
        typed("static_shader", text("void main() {}")),
    ))
    .unwrap();
    match source.vertex {
        ShaderStage::File { filename } => assert_eq!(filename, "basic.vs"),
        other => panic!("unexpected stage {:?}", other),
    }
    match source.fragment {
        ShaderStage::Static { source } => assert_eq!(source, "void main() {}"),
        other => panic!("unexpected stage {:?}", other),
    }
}

#[test]
fn shader_errors_come_in_order() {
    let ok = typed("static_shader", text("x"));
    let unknown = typed("shader_from_web", text("x"));
    let no_vertex = typed("shader_program", object(vec![field("fragment", unknown.clone())]));
    match pon_to_shader(&no_vertex) {
        Err(ShapeError::NoSuchField { field }) => assert_eq!(field, "vertex"),
        other => panic!("unexpected outcome {:?}", other),
    }
    let no_fragment = typed("shader_program", object(vec![field("vertex", unknown.clone())]));
    match pon_to_shader(&no_fragment) {
        Err(ShapeError::NoSuchField { field }) => assert_eq!(field, "fragment"),
        other => panic!("unexpected outcome {:?}", other),
    }
    match pon_to_shader(&program(unknown.clone(), text("plain"))) {
        Err(ShapeError::UnrecognizedType { kind }) => assert_eq!(kind, "shader_from_web"),
        other => panic!("unexpected outcome {:?}", other),
    }
    match pon_to_shader(&program(ok.clone(), text("plain"))) {
        Err(ShapeError::NotTyped { field }) => assert_eq!(field, "fragment"),
        other => panic!("unexpected outcome {:?}", other),
    }
    match pon_to_shader(&program(typed("static_shader", Descriptor::Nil), ok.clone())) {
        Err(ShapeError::InvalidValue { field }) => assert_eq!(field, "vertex"),
        other => panic!("unexpected outcome {:?}", other),
    }
    match pon_to_shader(&typed("program", object(vec![]))) {
        Err(ShapeError::UnrecognizedType { kind }) => assert_eq!(kind, "program"),
        other => panic!("unexpected outcome {:?}", other),
    }
    match pon_to_shader(&Descriptor::Nil) {
        Err(ShapeError::NotTyped { field }) => assert_eq!(field, "shader"),
        other => panic!("unexpected outcome {:?}", other),
    }
    assert!(shader_stage(&ok, "vertex").is_ok());
}

fn layout_tree() -> Descriptor {
    Descriptor::sequence(vec![
        Descriptor::sequence(vec![text("position"), Descriptor::Integer(3)]),
        Descriptor::sequence(vec![text("texcoord"), Descriptor::Integer(2)]),
    ])
}

#[test]
fn static_mesh_gives_layout_vertices_and_indices() {
    let mesh = typed(
        "static_mesh",
        object(vec![
            field("layout", layout_tree()),
            field("vertices", reals(&[0.5, -1.0])),
            field("indices", integers(&[0, 1, 2, 4294967296 + 7])),
        ]),
    );
    match pon_to_mesh(&mesh).unwrap() {
        MeshSource::Static { layout, vertices, indices } => {
            assert_eq!(layout.len(), 2);
            assert_eq!((layout[0].name.as_str(), layout[0].size), ("position", 3));
            assert_eq!((layout[1].name.as_str(), layout[1].size), ("texcoord", 2));
            assert_eq!(vertices, vec![0.5f64.to_bits(), (-1.0f64).to_bits()]);
            assert_eq!(indices, vec![0, 1, 2, 7]);
        }
        other => panic!("unexpected source {:?}", other),
    }
}

#[test]
fn static_mesh_needs_all_its_fields() {
    let no_layout = typed("static_mesh", object(vec![field("vertices", reals(&[]))]));
    match pon_to_mesh(&no_layout) {
        Err(ShapeError::NoSuchField { field }) => assert_eq!(field, "layout"),
        other => panic!("unexpected outcome {:?}", other),
    }
    let bad_layout = typed("static_mesh", object(vec![field("layout", integers(&[1]))]));
    match pon_to_mesh(&bad_layout) {
        Err(ShapeError::InvalidValue { field }) => assert_eq!(field, "layout"),
        other => panic!("unexpected outcome {:?}", other),
    }
    let no_vertices = typed("static_mesh", object(vec![field("layout", layout_tree())]));
    match pon_to_mesh(&no_vertices) {
        Err(ShapeError::NoSuchField { field }) => assert_eq!(field, "vertices"),
        other => panic!("unexpected outcome {:?}", other),
    }
    let bad_indices = typed(
        "static_mesh",
        object(vec![
            field("layout", layout_tree()),
            field("vertices", reals(&[])),
            field("indices", reals(&[1.0])),
        ]),
    );
    match pon_to_mesh(&bad_indices) {
        Err(ShapeError::InvalidValue { field }) => assert_eq!(field, "indices"),
        other => panic!("unexpected outcome {:?}", other),
    }
}

#[test]
fn grid_mesh_may_leave_the_layout_out() {
    let grid = typed(
        "grid_mesh",
        object(vec![
            field("n_vertices_width", Descriptor::Integer(4)),
            field("n_vertices_height", Descriptor::Integer(3)),
        ]),
    );
    match pon_to_mesh(&grid).unwrap() {
        MeshSource::Grid { layout, n_vertices_width, n_vertices_height } => {
            assert!(layout.is_none());
            assert_eq!((n_vertices_width, n_vertices_height), (4, 3));
        }
        other => panic!("unexpected source {:?}", other),
    }
    let with_layout = typed(
        "grid_mesh",
        object(vec![
            field("layout", layout_tree()),
            field("n_vertices_width", Descriptor::Integer(-1)),
            field("n_vertices_height", Descriptor::Integer(3)),
        ]),
    );
    match pon_to_mesh(&with_layout).unwrap() {
        MeshSource::Grid { layout, n_vertices_width, .. } => {
            assert_eq!(layout.unwrap().len(), 2);
            assert_eq!(n_vertices_width, 4294967295);
        }
        other => panic!("unexpected source {:?}", other),
    }
    let no_height = typed("grid_mesh", object(vec![field("n_vertices_width", Descriptor::Integer(4))]));
    match pon_to_mesh(&no_height) {
        Err(ShapeError::NoSuchField { field }) => assert_eq!(field, "n_vertices_height"),
        other => panic!("unexpected outcome {:?}", other),
    }
}

#[test]
fn box_mesh_hands_position_and_size_on() {
    let plain = typed("box_mesh", object(vec![field("layout", text("wrong"))]));
    match pon_to_mesh(&plain).unwrap() {
        MeshSource::Box3 { layout, position, size } => {
            assert!(layout.is_none() && position.is_none() && size.is_none());
        }
        other => panic!("unexpected source {:?}", other),
    }
    let placed = typed("box_mesh", object(vec![field("size", reals(&[1.0, 2.0, 3.0]))]));
    match pon_to_mesh(&placed).unwrap() {
        MeshSource::Box3 { position, size, .. } => {
            assert!(position.is_none());
            assert!(size.unwrap().equals(&reals(&[1.0, 2.0, 3.0])));
        }
        other => panic!("unexpected source {:?}", other),
    }
}

#[test]
fn mesh_from_resource_and_unknown_kinds() {
    match pon_to_mesh(&typed("mesh_from_resource", text("cube"))).unwrap() {
        MeshSource::FromResource { resource_id } => assert_eq!(resource_id, "cube"),
        other => panic!("unexpected source {:?}", other),
    }
    match pon_to_mesh(&typed("mesh_from_resource", Descriptor::Nil)) {
        Err(ShapeError::InvalidValue { field }) => assert_eq!(field, "mesh_from_resource"),
        other => panic!("unexpected outcome {:?}", other),
    }
    match pon_to_mesh(&typed("mesh_from_file", text("cube.x"))) {
        Err(ShapeError::UnrecognizedType { kind }) => assert_eq!(kind, "mesh_from_file"),
        other => panic!("unexpected outcome {:?}", other),
    }
    match pon_to_mesh(&Descriptor::Integer(3)) {
        Err(ShapeError::NotTyped { field }) => assert_eq!(field, "mesh"),
        other => panic!("unexpected outcome {:?}", other),
    }
}

#[test]
fn fields_are_looked_up_by_name() {
    let data = object(vec![
        text("stray"),
        field("a", Descriptor::Integer(1)),
        field("b", integers(&[1, 2])),
        field("a", Descriptor::Integer(2)),
        field("c", reals(&[0.25])),
    ]);
    assert_eq!(integer_field(&data, "a").unwrap(), 1);
    assert_eq!(integers_field(&data, "b").unwrap(), vec![1, 2]);
    assert_eq!(reals_field(&data, "c").unwrap(), vec![0.25f64.to_bits()]);
    assert!(matches!(integer_field(&data, "b"), Err(ShapeError::InvalidValue { .. })));
    assert!(matches!(integer_field(&data, "z"), Err(ShapeError::NoSuchField { .. })));
    assert!(matches!(integer_field(&text("x"), "a"), Err(ShapeError::NoSuchField { .. })));
    assert!(data.field(&"stray".to_string()).is_none());
    assert!(layout(&layout_tree()).is_some());
    assert!(layout(&integers(&[1])).is_none());
    assert!(layout(&Descriptor::sequence(vec![Descriptor::sequence(vec![text("p")])])).is_none());
}
