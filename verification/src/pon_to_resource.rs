//! From descriptors in plain object notation, pon for short, to what they
//! ask for.
//!
//! A descriptor of a texture, a shader program or a mesh is a value of a
//! named kind. Here the kind and the fields of such a descriptor are
//! checked and handed out as plain values, before anything is decoded. A
//! descriptor of another shape is refused with an error that names the kind
//! or the field that is at fault.

use crate::descriptor::{
    integers_of, is_integers, is_reals, lookup, reals_of, Descriptor, DescriptorView,
};
use vstd::prelude::*;

verus! {

/// Why a descriptor was refused.
#[derive(Debug)]
pub enum ShapeError {
    /// The descriptor, or the field of this name, is no value of a named
    /// kind.
    NotTyped { field: String },
    /// No such kind is known here.
    UnrecognizedType { kind: String },
    /// The field of this name is missing.
    NoSuchField { field: String },
    /// The field of this name holds a value of the wrong form.
    InvalidValue { field: String },
    /// An image of the given width and height has `expected` bytes, and
    /// `found` were given.
    PixelCount { expected: u128, found: usize },
}

/// Why a tree was refused.
pub ghost enum ShapeFault {
    NotTyped { field: Seq<char> },
    UnrecognizedType { kind: Seq<char> },
    NoSuchField { field: Seq<char> },
    InvalidValue { field: Seq<char> },
    PixelCount { expected: int, found: int },
}

impl ShapeError {
    /// The error, with its texts as sequences of characters.
    pub open spec fn view(&self) -> ShapeFault {
        match self {
            ShapeError::NotTyped { field } => ShapeFault::NotTyped { field: field@ },
            ShapeError::UnrecognizedType { kind } => ShapeFault::UnrecognizedType {
                kind: kind@,
            },
            ShapeError::NoSuchField { field } => ShapeFault::NoSuchField { field: field@ },
            ShapeError::InvalidValue { field } => ShapeFault::InvalidValue { field: field@ },
            ShapeError::PixelCount { expected, found } => ShapeFault::PixelCount {
                expected: *expected as int,
                found: *found as int,
            },
        }
    }
}

/// The integer in the field `name` of `data`.
pub open spec fn integer_at(data: DescriptorView, name: Seq<char>) -> Result<i64, ShapeFault> {
    match lookup(data, name) {
        None => Err(ShapeFault::NoSuchField { field: name }),
        Some(value) => if value is Integer {
            Ok(value->Integer_0)
        } else {
            Err(ShapeFault::InvalidValue { field: name })
        },
    }
}

/// The integers in the field `name` of `data`.
pub open spec fn integers_at(data: DescriptorView, name: Seq<char>) -> Result<Seq<i64>, ShapeFault> {
    match lookup(data, name) {
        None => Err(ShapeFault::NoSuchField { field: name }),
        Some(value) => if is_integers(value) {
            Ok(integers_of(value))
        } else {
            Err(ShapeFault::InvalidValue { field: name })
        },
    }
}

/// The bits of the real numbers in the field `name` of `data`.
pub open spec fn reals_at(data: DescriptorView, name: Seq<char>) -> Result<Seq<u64>, ShapeFault> {
    match lookup(data, name) {
        None => Err(ShapeFault::NoSuchField { field: name }),
        Some(value) => if is_reals(value) {
            Ok(reals_of(value))
        } else {
            Err(ShapeFault::InvalidValue { field: name })
        },
    }
}

/// The integer in the field `name` of `data`.
pub fn integer_field(data: &Descriptor, name: &str) -> (found: Result<i64, ShapeError>)
    ensures
        match found {
            Ok(value) => integer_at(data@, name@) == Ok::<i64, ShapeFault>(value),
            Err(error) => integer_at(data@, name@) == Err::<i64, ShapeFault>(error@),
        },
{
    let field = name.to_owned();
    match data.field(&field) {
        None => Err(ShapeError::NoSuchField { field }),
        Some(value) => match value {
            Descriptor::Integer(value) => Ok(*value),
            _ => Err(ShapeError::InvalidValue { field }),
        },
    }
}

/// The integers in the field `name` of `data`.
pub fn integers_field(data: &Descriptor, name: &str) -> (found: Result<Vec<i64>, ShapeError>)
    ensures
        match found {
            Ok(values) => integers_at(data@, name@) == Ok::<Seq<i64>, ShapeFault>(values@),
            Err(error) => integers_at(data@, name@) == Err::<Seq<i64>, ShapeFault>(error@),
        },
{
    let field = name.to_owned();
    match data.field(&field) {
        None => Err(ShapeError::NoSuchField { field }),
        Some(value) => match value.integers() {
            Some(values) => Ok(values),
            None => Err(ShapeError::InvalidValue { field }),
        },
    }
}

/// The bits of the real numbers in the field `name` of `data`.
pub fn reals_field(data: &Descriptor, name: &str) -> (found: Result<Vec<u64>, ShapeError>)
    ensures
        match found {
            Ok(values) => reals_at(data@, name@) == Ok::<Seq<u64>, ShapeFault>(values@),
            Err(error) => reals_at(data@, name@) == Err::<Seq<u64>, ShapeFault>(error@),
        },
{
    let field = name.to_owned();
    match data.field(&field) {
        None => Err(ShapeError::NoSuchField { field }),
        Some(value) => match value.reals() {
            Some(values) => Ok(values),
            None => Err(ShapeError::InvalidValue { field }),
        },
    }
}

/// Where the pixels of a texture come from.
#[derive(Debug)]
pub enum TextureSource {
    /// The pixels are given: four bytes for each pixel, row by row.
    Static { width: u32, height: u32, pixels: Vec<u8> },
    /// The pixels are in the image file of this name.
    File { filename: String },
}

/// Where the pixels of a texture come from.
pub ghost enum TextureShape {
    Static { width: u32, height: u32, pixels: Seq<u8> },
    File { filename: Seq<char> },
}

impl TextureSource {
    /// The source, with its texts and pixels as sequences.
    pub open spec fn view(&self) -> TextureShape {
        match self {
            TextureSource::Static { width, height, pixels } => TextureShape::Static {
                width: *width,
                height: *height,
                pixels: pixels@,
            },
            TextureSource::File { filename } => TextureShape::File { filename: filename@ },
        }
    }
}

/// The low eight bits of each integer.
pub open spec fn bytes_of(values: Seq<i64>) -> Seq<u8> {
    Seq::new(values.len(), |i: int| values[i] as u8)
}

/// What the tree says of a texture.
///
/// A `static_texture` has the fields `pixels`, `width` and `height`. Of each
/// pixel value the low eight bits count, of width and height the low 32
/// bits, and there are four pixel values for each pixel. A
/// `texture_from_file` holds the name of the file.
pub open spec fn texture_shape(tree: DescriptorView) -> Result<TextureShape, ShapeFault> {
    if !(tree is Named) {
        Err(ShapeFault::NotTyped { field: "texture"@ })
    } else if tree->name == "static_texture"@ {
        let data = *tree->value;
        match integers_at(data, "pixels"@) {
            Err(fault) => Err(fault),
            Ok(pixels) => match integer_at(data, "width"@) {
                Err(fault) => Err(fault),
                Ok(width) => match integer_at(data, "height"@) {
                    Err(fault) => Err(fault),
                    Ok(height) => if (width as u32) * (height as u32) * 4 != pixels.len() {
                        Err(
                            ShapeFault::PixelCount {
                                expected: (width as u32) * (height as u32) * 4,
                                found: pixels.len() as int,
                            },
                        )
                    } else {
                        Ok(
                            TextureShape::Static {
                                width: width as u32,
                                height: height as u32,
                                pixels: bytes_of(pixels),
                            },
                        )
                    },
                },
            },
        }
    } else if tree->name == "texture_from_file"@ {
        if *tree->value is Text {
            Ok(TextureShape::File { filename: tree->value->Text_0 })
        } else {
            Err(ShapeFault::InvalidValue { field: "texture_from_file"@ })
        }
    } else {
        Err(ShapeFault::UnrecognizedType { kind: tree->name })
    }
}

/// The low eight bits of each integer.
fn low_bytes(values: &Vec<i64>) -> (bytes: Vec<u8>)
    ensures
        bytes@ == bytes_of(values@),
{
    let mut bytes: Vec<u8> = Vec::new();
    let mut i: usize = 0;
    while i < values.len()
        invariant
            i <= values@.len(),
            bytes@.len() == i,
            forall|j: int| 0 <= j < i ==> #[trigger] bytes@[j] == values@[j] as u8,
        decreases values@.len() - i,
    {
        bytes.push(#[verifier::truncate] (values[i] as u8));
        i += 1;
    }
    proof {
        assert(bytes@ =~= bytes_of(values@));
    }
    bytes
}

/// What the descriptor says of a texture.
pub fn pon_to_texture(descriptor: &Descriptor) -> (found: Result<TextureSource, ShapeError>)
    ensures
        match found {
            Ok(source) => texture_shape(descriptor@) == Ok::<TextureShape, ShapeFault>(source@),
            Err(error) => texture_shape(descriptor@) == Err::<TextureShape, ShapeFault>(error@),
        },
{
    match descriptor {
        Descriptor::Named { name, value } => {
            if *name == "static_texture".to_owned() {
                let pixels = match integers_field(value, "pixels") {
                    Ok(pixels) => pixels,
                    Err(error) => {
                        return Err(error);
                    },
                };
                let width = match integer_field(value, "width") {
                    Ok(width) => #[verifier::truncate] (width as u32),
                    Err(error) => {
                        return Err(error);
                    },
                };
                let height = match integer_field(value, "height") {
                    Ok(height) => #[verifier::truncate] (height as u32),
                    Err(error) => {
                        return Err(error);
                    },
                };
                proof {
                    assert((width as int) * (height as int) <= 0xFFFF_FFFF * 0xFFFF_FFFF)
                        by (nonlinear_arith)
                        requires
                            0 <= width <= 0xFFFF_FFFF,
                            0 <= height <= 0xFFFF_FFFF,
                    ;
                }
                let expected: u128 = (width as u128) * (height as u128) * 4;
                if expected != pixels.len() as u128 {
                    return Err(ShapeError::PixelCount { expected, found: pixels.len() });
                }
                Ok(TextureSource::Static { width, height, pixels: low_bytes(&pixels) })
            } else if *name == "texture_from_file".to_owned() {
                match &**value {
                    Descriptor::Text(filename) => Ok(
                        TextureSource::File { filename: filename.clone() },
                    ),
                    _ => Err(ShapeError::InvalidValue { field: "texture_from_file".to_owned() }),
                }
            } else {
                Err(ShapeError::UnrecognizedType { kind: name.clone() })
            }
        },
        _ => Err(ShapeError::NotTyped { field: "texture".to_owned() }),
    }
}


/// Where the text of one stage of a shader program comes from.
#[derive(Debug)]
pub enum ShaderStage {
    /// The text is in the file of this name.
    File { filename: String },
    /// The text is given.
    Static { source: String },
}

/// Where the texts of a shader program come from.
#[derive(Debug)]
pub struct ShaderSource {
    pub vertex: ShaderStage,
    pub fragment: ShaderStage,
}

/// Where the text of one stage of a shader program comes from.
pub ghost enum StageShape {
    File { filename: Seq<char> },
    Static { source: Seq<char> },
}

impl ShaderStage {
    /// The stage, with its text as a sequence of characters.
    pub open spec fn view(&self) -> StageShape {
        match self {
            ShaderStage::File { filename } => StageShape::File { filename: filename@ },
            ShaderStage::Static { source } => StageShape::Static { source: source@ },
        }
    }
}

/// What the tree in the field `field` says of one stage: a
/// `shader_from_file` holds the name of a file, a `static_shader` the text
/// itself.
pub open spec fn stage_shape(tree: DescriptorView, field: Seq<char>) -> Result<StageShape, ShapeFault> {
    if !(tree is Named) {
        Err(ShapeFault::NotTyped { field })
    } else if !(*tree->value is Text) {
        Err(ShapeFault::InvalidValue { field })
    } else if tree->name == "shader_from_file"@ {
        Ok(StageShape::File { filename: tree->value->Text_0 })
    } else if tree->name == "static_shader"@ {
        Ok(StageShape::Static { source: tree->value->Text_0 })
    } else {
        Err(ShapeFault::UnrecognizedType { kind: tree->name })
    }
}

/// What the tree says of a shader program: a `shader_program` has the
/// fields `vertex` and `fragment`, each a stage. A missing field is found
/// before a stage of the wrong form, and the vertex stage is looked at
/// before the fragment stage.
pub open spec fn shader_shape(tree: DescriptorView) -> Result<(StageShape, StageShape), ShapeFault> {
    if !(tree is Named) {
        Err(ShapeFault::NotTyped { field: "shader"@ })
    } else if tree->name != "shader_program"@ {
        Err(ShapeFault::UnrecognizedType { kind: tree->name })
    } else {
        match lookup(*tree->value, "vertex"@) {
            None => Err(ShapeFault::NoSuchField { field: "vertex"@ }),
            Some(vertex) => match lookup(*tree->value, "fragment"@) {
                None => Err(ShapeFault::NoSuchField { field: "fragment"@ }),
                Some(fragment) => match stage_shape(vertex, "vertex"@) {
                    Err(fault) => Err(fault),
                    Ok(vertex_stage) => match stage_shape(fragment, "fragment"@) {
                        Err(fault) => Err(fault),
                        Ok(fragment_stage) => Ok((vertex_stage, fragment_stage)),
                    },
                },
            },
        }
    }
}

/// What the descriptor in the field `field` says of one stage.
pub fn shader_stage(descriptor: &Descriptor, field: &str) -> (found: Result<ShaderStage, ShapeError>)
    ensures
        match found {
            Ok(stage) => stage_shape(descriptor@, field@) == Ok::<StageShape, ShapeFault>(stage@),
            Err(error) => stage_shape(descriptor@, field@) == Err::<StageShape, ShapeFault>(error@),
        },
{
    proof {
        reveal_with_fuel(Descriptor::view, 2);
    }
    match descriptor {
        Descriptor::Named { name, value } => match &**value {
            Descriptor::Text(text) => {
                if *name == "shader_from_file".to_owned() {
                    Ok(ShaderStage::File { filename: text.clone() })
                } else if *name == "static_shader".to_owned() {
                    Ok(ShaderStage::Static { source: text.clone() })
                } else {
                    Err(ShapeError::UnrecognizedType { kind: name.clone() })
                }
            },
            _ => Err(ShapeError::InvalidValue { field: field.to_owned() }),
        },
        _ => Err(ShapeError::NotTyped { field: field.to_owned() }),
    }
}

/// What the descriptor says of a shader program.
pub fn pon_to_shader(descriptor: &Descriptor) -> (found: Result<ShaderSource, ShapeError>)
    ensures
        match found {
            Ok(source) => shader_shape(descriptor@) == Ok::<(StageShape, StageShape), ShapeFault>(
                (source.vertex@, source.fragment@),
            ),
            Err(error) => shader_shape(descriptor@) == Err::<(StageShape, StageShape), ShapeFault>(
                error@,
            ),
        },
{
    match descriptor {
        Descriptor::Named { name, value } => {
            if *name != "shader_program".to_owned() {
                return Err(ShapeError::UnrecognizedType { kind: name.clone() });
            }
            let vertex_name = "vertex".to_owned();
            let fragment_name = "fragment".to_owned();
            let vertex = match value.field(&vertex_name) {
                Some(vertex) => vertex,
                None => {
                    return Err(ShapeError::NoSuchField { field: vertex_name });
                },
            };
            let fragment = match value.field(&fragment_name) {
                Some(fragment) => fragment,
                None => {
                    return Err(ShapeError::NoSuchField { field: fragment_name });
                },
            };
            let vertex = match shader_stage(vertex, "vertex") {
                Ok(stage) => stage,
                Err(error) => {
                    return Err(error);
                },
            };
            let fragment = match shader_stage(fragment, "fragment") {
                Ok(stage) => stage,
                Err(error) => {
                    return Err(error);
                },
            };
            Ok(ShaderSource { vertex, fragment })
        },
        _ => Err(ShapeError::NotTyped { field: "shader".to_owned() }),
    }
}

/// One attribute of a vertex: its name and the number of its components.
#[derive(Debug)]
pub struct LocalAttributeSpec {
    pub name: String,
    pub size: usize,
}

/// What a mesh is made from.
#[derive(Debug)]
#[allow(inconsistent_fields)]
pub enum MeshSource {
    /// The vertices, as the bits of their components, and the indices are
    /// given.
    Static { layout: Vec<LocalAttributeSpec>, vertices: Vec<u64>, indices: Vec<u32> },
    /// The mesh is kept under this name elsewhere.
    FromResource { resource_id: String },
    /// A grid of so many vertices. Without a layout the usual one is meant.
    Grid { layout: Option<Vec<LocalAttributeSpec>>, n_vertices_width: u32, n_vertices_height: u32 },
    /// A box. Without a layout, a position or a size the usual one is
    /// meant.
    Box3 { layout: Option<Vec<LocalAttributeSpec>>, position: Option<Descriptor>, size: Option<Descriptor> },
}

/// What a mesh is made from.
#[allow(inconsistent_fields)]
pub ghost enum MeshShape {
    Static { layout: Seq<(Seq<char>, usize)>, vertices: Seq<u64>, indices: Seq<u32> },
    FromResource { resource_id: Seq<char> },
    Grid { layout: Option<Seq<(Seq<char>, usize)>>, n_vertices_width: u32, n_vertices_height: u32 },
    Box3 {
        layout: Option<Seq<(Seq<char>, usize)>>,
        position: Option<DescriptorView>,
        size: Option<DescriptorView>,
    },
}

/// The attributes as pairs of name and size.
pub open spec fn attributes_of(layout: Seq<LocalAttributeSpec>) -> Seq<(Seq<char>, usize)> {
    Seq::new(layout.len(), |i: int| (layout[i].name@, layout[i].size))
}

/// The views of the attributes, if there are any.
pub open spec fn layout_view(layout: Option<Vec<LocalAttributeSpec>>) -> Option<Seq<(Seq<char>, usize)>> {
    match layout {
        Some(layout) => Some(attributes_of(layout@)),
        None => None,
    }
}

/// The view of the descriptor, if there is one.
pub open spec fn optional_view(descriptor: Option<Descriptor>) -> Option<DescriptorView> {
    match descriptor {
        Some(descriptor) => Some(descriptor@),
        None => None,
    }
}

impl MeshSource {
    /// The source, with its texts and numbers as sequences.
    pub open spec fn view(&self) -> MeshShape {
        match self {
            MeshSource::Static { layout, vertices, indices } => MeshShape::Static {
                layout: attributes_of(layout@),
                vertices: vertices@,
                indices: indices@,
            },
            MeshSource::FromResource { resource_id } => MeshShape::FromResource {
                resource_id: resource_id@,
            },
            MeshSource::Grid { layout, n_vertices_width, n_vertices_height } => MeshShape::Grid {
                layout: layout_view(*layout),
                n_vertices_width: *n_vertices_width,
                n_vertices_height: *n_vertices_height,
            },
            MeshSource::Box3 { layout, position, size } => MeshShape::Box3 {
                layout: layout_view(*layout),
                position: optional_view(*position),
                size: optional_view(*size),
            },
        }
    }
}

/// The tree names one attribute: a sequence that starts with a text and an
/// integer.
pub open spec fn is_attribute(tree: DescriptorView) -> bool {
    &&& tree is Sequence
    &&& tree->Sequence_0.len() >= 2
    &&& tree->Sequence_0[0] is Text
    &&& tree->Sequence_0[1] is Integer
}

/// The tree is a layout: a sequence of attributes.
pub open spec fn is_layout(tree: DescriptorView) -> bool {
    tree is Sequence && forall|i: int|
        0 <= i < tree->Sequence_0.len() ==> is_attribute(#[trigger] tree->Sequence_0[i])
}

/// The attributes of a layout: of each its name and, as its size, the low
/// bits of its integer.
pub open spec fn layout_of(tree: DescriptorView) -> Seq<(Seq<char>, usize)> {
    Seq::new(
        tree->Sequence_0.len(),
        |i: int|
            (
                tree->Sequence_0[i]->Sequence_0[0]->Text_0,
                tree->Sequence_0[i]->Sequence_0[1]->Integer_0 as usize,
            ),
    )
}

/// The layout in the field `layout` of `data`, if the field is there and
/// is a layout.
pub open spec fn layout_at(data: DescriptorView) -> Option<Seq<(Seq<char>, usize)>> {
    match lookup(data, "layout"@) {
        Some(layout) => if is_layout(layout) {
            Some(layout_of(layout))
        } else {
            None
        },
        None => None,
    }
}

/// The low 32 bits of each integer.
pub open spec fn words_of(values: Seq<i64>) -> Seq<u32> {
    Seq::new(values.len(), |i: int| values[i] as u32)
}

/// What the tree says of a mesh.
///
/// A `static_mesh` has the fields `layout`, `vertices` and `indices`; of
/// each index the low 32 bits count. A `mesh_from_resource` holds a name. A
/// `grid_mesh` has the fields `n_vertices_width` and `n_vertices_height`,
/// of which the low 32 bits count, and may have a layout. A `box_mesh` may
/// have a layout, a position and a size. Where a layout may be left out, one
/// of the wrong form counts as left out.
pub open spec fn mesh_shape(tree: DescriptorView) -> Result<MeshShape, ShapeFault> {
    if !(tree is Named) {
        Err(ShapeFault::NotTyped { field: "mesh"@ })
    } else if tree->name == "static_mesh"@ {
        let data = *tree->value;
        match lookup(data, "layout"@) {
            None => Err(ShapeFault::NoSuchField { field: "layout"@ }),
            Some(layout) => if !is_layout(layout) {
                Err(ShapeFault::InvalidValue { field: "layout"@ })
            } else {
                match reals_at(data, "vertices"@) {
                    Err(fault) => Err(fault),
                    Ok(vertices) => match integers_at(data, "indices"@) {
                        Err(fault) => Err(fault),
                        Ok(indices) => Ok(
                            MeshShape::Static {
                                layout: layout_of(layout),
                                vertices,
                                indices: words_of(indices),
                            },
                        ),
                    },
                }
            },
        }
    } else if tree->name == "mesh_from_resource"@ {
        if *tree->value is Text {
            Ok(MeshShape::FromResource { resource_id: tree->value->Text_0 })
        } else {
            Err(ShapeFault::InvalidValue { field: "mesh_from_resource"@ })
        }
    } else if tree->name == "grid_mesh"@ {
        let data = *tree->value;
        match integer_at(data, "n_vertices_width"@) {
            Err(fault) => Err(fault),
            Ok(width) => match integer_at(data, "n_vertices_height"@) {
                Err(fault) => Err(fault),
                Ok(height) => Ok(
                    MeshShape::Grid {
                        layout: layout_at(data),
                        n_vertices_width: width as u32,
                        n_vertices_height: height as u32,
                    },
                ),
            },
        }
    } else if tree->name == "box_mesh"@ {
        let data = *tree->value;
        Ok(
            MeshShape::Box3 {
                layout: layout_at(data),
                position: lookup(data, "position"@),
                size: lookup(data, "size"@),
            },
        )
    } else {
        Err(ShapeFault::UnrecognizedType { kind: tree->name })
    }
}

/// The attributes of a layout.
pub fn layout(descriptor: &Descriptor) -> (found: Option<Vec<LocalAttributeSpec>>)
    ensures
        found.is_some() == is_layout(descriptor@),
        found.is_some() ==> attributes_of(found.unwrap()@) == layout_of(descriptor@),
{
    match descriptor {
        Descriptor::Sequence(items) => {
            proof {
                Descriptor::lemma_sequence_view(*items);
            }
            let ghost views = crate::descriptor::views_of(items@);
            let mut found: Vec<LocalAttributeSpec> = Vec::new();
            let mut i: usize = 0;
            while i < items.len()
                invariant
                    i <= items@.len(),
                    views == crate::descriptor::views_of(items@),
                    descriptor@ == DescriptorView::Sequence(views),
                    found@.len() == i,
                    forall|j: int| 0 <= j < i ==> is_attribute(#[trigger] views[j]),
                    forall|j: int|
                        0 <= j < i ==> (#[trigger] found@[j]).name@
                            == views[j]->Sequence_0[0]->Text_0 && found@[j].size
                            == views[j]->Sequence_0[1]->Integer_0 as usize,
                decreases items@.len() - i,
            {
                proof {
                    assert(views[i as int] == items@[i as int]@);
                }
                match &items[i] {
                    Descriptor::Sequence(parts) => {
                        proof {
                            Descriptor::lemma_sequence_view(*parts);
                            assert(views[i as int]->Sequence_0.len() == parts@.len());
                        }
                        if parts.len() < 2 {
                            proof {
                                assert(!is_attribute(views[i as int]));
                                assert(descriptor@->Sequence_0[i as int] == views[i as int]);
                                assert(!is_layout(descriptor@));
                            }
                            return None;
                        }
                        proof {
                            assert(views[i as int]->Sequence_0[0] == parts@[0]@);
                            assert(views[i as int]->Sequence_0[1] == parts@[1]@);
                        }
                        match (&parts[0], &parts[1]) {
                            (Descriptor::Text(name), Descriptor::Integer(size)) => {
                                found.push(
                                    LocalAttributeSpec {
                                        name: name.clone(),
                                        size: #[verifier::truncate] (*size as usize),
                                    },
                                );
                            },
                            _ => {
                                proof {
                                    assert(!is_attribute(views[i as int]));
                                    assert(descriptor@->Sequence_0[i as int] == views[i as int]);
                                    assert(!is_layout(descriptor@));
                                }
                                return None;
                            },
                        }
                    },
                    _ => {
                        proof {
                            assert(!is_attribute(views[i as int]));
                            assert(descriptor@->Sequence_0[i as int] == views[i as int]);
                            assert(!is_layout(descriptor@));
                        }
                        return None;
                    },
                }
                i += 1;
            }
            proof {
                assert(attributes_of(found@) =~= layout_of(descriptor@));
            }
            Some(found)
        },
        _ => None,
    }
}

/// The layout in the field `layout` of `data`, if the field is there and
/// is a layout.
fn optional_layout(data: &Descriptor) -> (found: Option<Vec<LocalAttributeSpec>>)
    ensures
        layout_view(found) == layout_at(data@),
{
    match data.field(&"layout".to_owned()) {
        Some(value) => layout(value),
        None => None,
    }
}

/// The descriptor in the field `name` of `data`, if the field is there.
fn optional_field(data: &Descriptor, name: &str) -> (found: Option<Descriptor>)
    ensures
        optional_view(found) == lookup(data@, name@),
{
    match data.field(&name.to_owned()) {
        Some(value) => Some(value.clone()),
        None => None,
    }
}

/// The low 32 bits of each integer.
fn low_words(values: &Vec<i64>) -> (words: Vec<u32>)
    ensures
        words@ == words_of(values@),
{
    let mut words: Vec<u32> = Vec::new();
    let mut i: usize = 0;
    while i < values.len()
        invariant
            i <= values@.len(),
            words@.len() == i,
            forall|j: int| 0 <= j < i ==> #[trigger] words@[j] == values@[j] as u32,
        decreases values@.len() - i,
    {
        words.push(#[verifier::truncate] (values[i] as u32));
        i += 1;
    }
    proof {
        assert(words@ =~= words_of(values@));
    }
    words
}

/// What the descriptor says of a mesh.
pub fn pon_to_mesh(descriptor: &Descriptor) -> (found: Result<MeshSource, ShapeError>)
    ensures
        match found {
            Ok(source) => mesh_shape(descriptor@) == Ok::<MeshShape, ShapeFault>(source@),
            Err(error) => mesh_shape(descriptor@) == Err::<MeshShape, ShapeFault>(error@),
        },
{
    match descriptor {
        Descriptor::Named { name, value } => {
            if *name == "static_mesh".to_owned() {
                let field = "layout".to_owned();
                let attributes = match value.field(&field) {
                    None => {
                        return Err(ShapeError::NoSuchField { field });
                    },
                    Some(found) => match layout(found) {
                        Some(attributes) => attributes,
                        None => {
                            return Err(ShapeError::InvalidValue { field });
                        },
                    },
                };
                let vertices = match reals_field(value, "vertices") {
                    Ok(vertices) => vertices,
                    Err(error) => {
                        return Err(error);
                    },
                };
                let indices = match integers_field(value, "indices") {
                    Ok(indices) => indices,
                    Err(error) => {
                        return Err(error);
                    },
                };
                Ok(MeshSource::Static { layout: attributes, vertices, indices: low_words(&indices) })
            } else if *name == "mesh_from_resource".to_owned() {
                match &**value {
                    Descriptor::Text(resource_id) => Ok(
                        MeshSource::FromResource { resource_id: resource_id.clone() },
                    ),
                    _ => Err(ShapeError::InvalidValue { field: "mesh_from_resource".to_owned() }),
                }
            } else if *name == "grid_mesh".to_owned() {
                let width = match integer_field(value, "n_vertices_width") {
                    Ok(width) => #[verifier::truncate] (width as u32),
                    Err(error) => {
                        return Err(error);
                    },
                };
                let height = match integer_field(value, "n_vertices_height") {
                    Ok(height) => #[verifier::truncate] (height as u32),
                    Err(error) => {
                        return Err(error);
                    },
                };
                Ok(
                    MeshSource::Grid {
                        layout: optional_layout(value),
                        n_vertices_width: width,
                        n_vertices_height: height,
                    },
                )
            } else if *name == "box_mesh".to_owned() {
                Ok(
                    MeshSource::Box3 {
                        layout: optional_layout(value),
                        position: optional_field(value, "position"),
                        size: optional_field(value, "size"),
                    },
                )
            } else {
                Err(ShapeError::UnrecognizedType { kind: name.clone() })
            }
        },
        _ => Err(ShapeError::NotTyped { field: "mesh".to_owned() }),
    }
}

} // verus!
