//! What a voxel file holds, as far as a scene is made of it.

use crate::math::IVec3;
use crate::math::UVec3;
use dot_vox::DotVoxData;
use vstd::prelude::*;

verus! {

/// A voxel of a model, with the place of its color in the palette.
#[derive(Clone, Copy, Debug, PartialEq, Eq, Structural)]
pub struct FileVoxel {
    pub x: u8,
    pub y: u8,
    pub z: u8,
    pub i: u8,
}

/// A model: its size, with the third axis up, and its voxels.
pub struct FileModel {
    pub size: UVec3,
    pub voxels: Vec<FileVoxel>,
}

/// Where a frame is, where that is told, and the text that says how it is turned.
pub struct FileFrame {
    pub position: Option<IVec3>,
    pub rotation: Option<String>,
}

/// A node of the scene graph.
pub enum FileNode {
    Transform { frames: Vec<FileFrame>, child: u32 },
    Group { children: Vec<u32> },
    Shape { models: Vec<u32> },
}

/// A model, by its size and its voxels.
pub struct ModelView {
    pub size: UVec3,
    pub voxels: Seq<FileVoxel>,
}

/// A frame, by its position and its text.
pub struct FileFrameView {
    pub position: Option<IVec3>,
    pub rotation: Option<Seq<char>>,
}

/// A node of the scene graph, by its parts.
pub enum FileNodeView {
    Transform { frames: Seq<FileFrameView>, child: u32 },
    Group { children: Seq<u32> },
    Shape { models: Seq<u32> },
}

/// A material: its number, and the texts of the properties that are read of it.
pub struct FileMaterial {
    pub id: u32,
    pub kind: Option<String>,
    pub weight: Option<String>,
    pub metal: Option<String>,
    pub rough: Option<String>,
    pub spec: Option<String>,
    pub sp: Option<String>,
    pub ior: Option<String>,
    pub emit: Option<String>,
    pub flux: Option<String>,
}

/// A material, by its number and its texts.
pub struct FileMaterialView {
    pub id: u32,
    pub kind: Option<Seq<char>>,
    pub weight: Option<Seq<char>>,
    pub metal: Option<Seq<char>>,
    pub rough: Option<Seq<char>>,
    pub spec: Option<Seq<char>>,
    pub sp: Option<Seq<char>>,
    pub ior: Option<Seq<char>>,
    pub emit: Option<Seq<char>>,
    pub flux: Option<Seq<char>>,
}

impl View for FileMaterial {
    type V = FileMaterialView;

    open spec fn view(&self) -> FileMaterialView {
        FileMaterialView {
            id: self.id,
            kind: text_view(self.kind),
            weight: text_view(self.weight),
            metal: text_view(self.metal),
            rough: text_view(self.rough),
            spec: text_view(self.spec),
            sp: text_view(self.sp),
            ior: text_view(self.ior),
            emit: text_view(self.emit),
            flux: text_view(self.flux),
        }
    }
}

/// The text of an optional string.
pub open spec fn text_view(text: Option<String>) -> Option<Seq<char>> {
    match text {
        Some(text) => Some(text@),
        None => None,
    }
}

/// An optional string is told by whether there is one and by its text.
pub proof fn law_text_view(text: Option<String>)
    ensures
        text_view(text) is Some <==> text is Some,
        text matches Some(string) ==> text_view(text) == Some(string@),
{
}

impl View for FileModel {
    type V = ModelView;

    open spec fn view(&self) -> ModelView {
        ModelView { size: self.size, voxels: self.voxels@ }
    }
}

impl View for FileFrame {
    type V = FileFrameView;

    open spec fn view(&self) -> FileFrameView {
        FileFrameView { position: self.position, rotation: text_view(self.rotation) }
    }
}

impl View for FileNode {
    type V = FileNodeView;

    open spec fn view(&self) -> FileNodeView {
        match *self {
            FileNode::Transform { frames, child } => FileNodeView::Transform {
                frames: Seq::new(frames@.len(), |i: int| frames@[i]@),
                child,
            },
            FileNode::Group { children } => FileNodeView::Group { children: children@ },
            FileNode::Shape { models } => FileNodeView::Shape { models: models@ },
        }
    }
}

/// What `dot_vox` reads out of a voxel file.
#[verifier::external_type_specification]
#[verifier::external_body]
pub struct ExDotVoxData(DotVoxData);

/// What `dot_vox::load_bytes` makes of the bytes of a file, or the reason why it makes nothing of
/// them.
pub uninterp spec fn vox_data(bytes: Seq<u8>) -> Result<DotVoxData, Seq<char>>;

/// The models of a file.
pub uninterp spec fn vox_models(data: DotVoxData) -> Seq<ModelView>;

/// The colors of a file, each as red, green, blue and alpha.
pub uninterp spec fn vox_palette(data: DotVoxData) -> Seq<[u8; 4]>;

/// The nodes of the scene graph of a file.
pub uninterp spec fn vox_nodes(data: DotVoxData) -> Seq<FileNodeView>;

/// Reads a voxel file, by `dot_vox::load_bytes`.
///
/// The call is trusted to depend on the bytes alone. It recurses once for each level of nested
/// chunks.
#[verifier::external_body]
pub(crate) fn load_bytes(bytes: &[u8]) -> (r: Result<DotVoxData, String>)
    ensures
        match r {
            Ok(data) => vox_data(bytes@) == Ok::<DotVoxData, Seq<char>>(data),
            Err(reason) => vox_data(bytes@) == Err::<DotVoxData, Seq<char>>(reason@),
        },
{
    dot_vox::load_bytes(bytes).map_err(|reason| reason.to_string())
}

/// Reads the field `models` of `dot_vox::DotVoxData`.
///
/// The models are trusted to be those of the file, each with its size and its voxels in order.
#[verifier::external_body]
pub(crate) fn models(data: &DotVoxData) -> (r: Vec<FileModel>)
    ensures
        r@.len() == vox_models(*data).len(),
        forall|i: int| 0 <= i < r@.len() ==> (#[trigger] r@[i])@ == vox_models(*data)[i],
{
    data.models.iter().map(|model| FileModel {
        size: UVec3 { x: model.size.x, y: model.size.y, z: model.size.z },
        voxels: model.voxels.iter().map(|v| FileVoxel { x: v.x, y: v.y, z: v.z, i: v.i }).collect(),
    }).collect()
}

/// Reads the field `palette` of `dot_vox::DotVoxData`.
///
/// The colors are trusted to be those of the file, in order.
#[verifier::external_body]
pub(crate) fn palette(data: &DotVoxData) -> (r: Vec<[u8; 4]>)
    ensures
        r@ == vox_palette(*data),
{
    data.palette.iter().map(|color| [color.r, color.g, color.b, color.a]).collect()
}

/// Reads the field `scenes` of `dot_vox::DotVoxData`.
///
/// The nodes are trusted to be those of the file, in order: of a transform the child, and of each
/// frame what `dot_vox::Frame::position` gives and the text `_r` that
/// `dot_vox::Frame::orientation` reads, of a group the children, of a shape the numbers of the
/// models.
#[verifier::external_body]
pub(crate) fn nodes(data: &DotVoxData) -> (r: Vec<FileNode>)
    ensures
        r@.len() == vox_nodes(*data).len(),
        forall|i: int| 0 <= i < r@.len() ==> (#[trigger] r@[i])@ == vox_nodes(*data)[i],
{
    data.scenes.iter().map(|node| match node {
        dot_vox::SceneNode::Transform { frames, child, .. } => FileNode::Transform {
            frames: frames.iter().map(|frame| FileFrame {
                position: frame.position().map(|p| IVec3 { x: p.x, y: p.y, z: p.z }),
                rotation: frame.attributes.get("_r").cloned(),
            }).collect(),
            child: *child,
        },
        dot_vox::SceneNode::Group { children, .. } => FileNode::Group { children: children.clone() },
        dot_vox::SceneNode::Shape { models, .. } => FileNode::Shape {
            models: models.iter().map(|model| model.model_id).collect(),
        },
    }).collect()
}

/// The numbers of the materials of a file.
pub uninterp spec fn vox_material_ids(data: DotVoxData) -> Seq<u32>;

/// The text of a property of a material of a file, where the material has it.
pub uninterp spec fn vox_property(data: DotVoxData, material: int, key: Seq<char>) -> Option<
    Seq<char>,
>;

/// Reads the field `id` of each of the `materials` of `dot_vox::DotVoxData`.
///
/// The numbers are trusted to be those of the materials of the file, in order.
#[verifier::external_body]
pub(crate) fn material_ids(data: &DotVoxData) -> (r: Vec<u32>)
    ensures
        r@ == vox_material_ids(*data),
{
    data.materials.iter().map(|material| material.id).collect()
}

/// Looks a property of a material up in the field `properties` of `dot_vox::Material`.
///
/// The text is trusted to be the one that the file has for the property, where it has one.
#[verifier::external_body]
pub(crate) fn property(data: &DotVoxData, material: usize, key: &str) -> (r: Option<String>)
    requires
        material < vox_material_ids(*data).len(),
    ensures
        text_view(r) == vox_property(*data, material as int, key@),
{
    data.materials[material].properties.get(key).cloned()
}

/// A material of a file: its number, and which of its properties is read as what.
pub open spec fn vox_material(data: DotVoxData, material: int) -> FileMaterialView {
    FileMaterialView {
        id: vox_material_ids(data)[material],
        kind: vox_property(data, material, "_type"@),
        weight: vox_property(data, material, "_weight"@),
        metal: vox_property(data, material, "_metal"@),
        rough: vox_property(data, material, "_rough"@),
        spec: vox_property(data, material, "_spec"@),
        sp: vox_property(data, material, "_sp"@),
        ior: vox_property(data, material, "_ior"@),
        emit: vox_property(data, material, "_emit"@),
        flux: vox_property(data, material, "_flux"@),
    }
}

/// The materials of a file.
pub open spec fn vox_materials(data: DotVoxData) -> Seq<FileMaterialView> {
    Seq::new(vox_material_ids(data).len(), |i: int| vox_material(data, i))
}

/// The materials of a file.
pub fn materials(data: &DotVoxData) -> (r: Vec<FileMaterial>)
    ensures
        r@.len() == vox_materials(*data).len(),
        forall|i: int| 0 <= i < r@.len() ==> (#[trigger] r@[i])@ == vox_material(*data, i),
        forall|i: int|
            0 <= i < r@.len() ==> {
                &&& (#[trigger] r@[i]).id == vox_material_ids(*data)[i]
                &&& text_view(r@[i].kind) == vox_property(*data, i, "_type"@)
                &&& text_view(r@[i].weight) == vox_property(*data, i, "_weight"@)
                &&& text_view(r@[i].metal) == vox_property(*data, i, "_metal"@)
                &&& text_view(r@[i].rough) == vox_property(*data, i, "_rough"@)
                &&& text_view(r@[i].spec) == vox_property(*data, i, "_spec"@)
                &&& text_view(r@[i].sp) == vox_property(*data, i, "_sp"@)
                &&& text_view(r@[i].ior) == vox_property(*data, i, "_ior"@)
                &&& text_view(r@[i].emit) == vox_property(*data, i, "_emit"@)
                &&& text_view(r@[i].flux) == vox_property(*data, i, "_flux"@)
            },
{
    let ids: Vec<u32> = material_ids(data);
    let mut materials: Vec<FileMaterial> = Vec::new();
    let mut i: usize = 0;
    while i < ids.len()
        invariant
            i <= ids@.len(),
            ids@ == vox_material_ids(*data),
            materials@.len() == i,
            forall|k: int| 0 <= k < i ==> (#[trigger] materials@[k])@ == vox_material(*data, k),
        decreases ids@.len() - i,
    {
        let material: FileMaterial = FileMaterial {
            id: ids[i],
            kind: property(data, i, "_type"),
            weight: property(data, i, "_weight"),
            metal: property(data, i, "_metal"),
            rough: property(data, i, "_rough"),
            spec: property(data, i, "_spec"),
            sp: property(data, i, "_sp"),
            ior: property(data, i, "_ior"),
            emit: property(data, i, "_emit"),
            flux: property(data, i, "_flux"),
        };
        materials.push(material);
        assert(materials@[i as int]@ == vox_material(*data, i as int));
        i += 1;
    }
    materials
}

/// What is told of a model and of a node of a file is all that they hold, in order.
pub proof fn law_file_parts(model: FileModel, frame: FileFrame, node: FileNode)
    ensures
        model@.size == model.size,
        model@.voxels == model.voxels@,
        frame@.position == frame.position,
        frame@.rotation is Some <==> frame.rotation is Some,
        frame.rotation matches Some(text) ==> frame@.rotation == Some(text@),
        match (node, node@) {
            (
                FileNode::Transform { frames, child },
                FileNodeView::Transform { frames: told, child: same },
            ) => child == same && told.len() == frames@.len() && forall|i: int|
                0 <= i < frames@.len() ==> #[trigger] told[i] == frames@[i]@,
            (FileNode::Group { children }, FileNodeView::Group { children: told }) => told
                == children@,
            (FileNode::Shape { models }, FileNodeView::Shape { models: told }) => told == models@,
            _ => false,
        },
{
}

} // verus!
