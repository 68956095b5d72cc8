//! From the bytes of a voxel file to a scene: its entities, the trees of its models, its colors and
//! its materials.

use super::file;
use super::file::FileFrame;
use super::file::FileFrameView;
use super::file::FileMaterial;
use super::file::FileMaterialView;
use super::file::FileModel;
use super::file::FileNode;
use super::file::FileNodeView;
use super::file::ModelView;
use super::model;
use super::scene;
use super::scene::EntityKind;
use super::scene::EntityView;
use super::scene::Frame;
use super::scene::FrameView;
use super::scene::NodeView;
use super::scene::SceneNode;
use super::scene::VoxScene;
use crate::math::IVec3;
use crate::math::UVec3;
use crate::vdb::tree::Tree;
use std::collections::BTreeSet;
use vstd::prelude::*;

verus! {

/// Why a file makes no scene.
pub enum VoxLoadingError {
    /// The bytes are not those of a voxel file, for the given reason.
    ParseError(String),
    /// The file is one that no scene can be made of.
    Unsupported,
}

/// The number of colors of a file.
pub const PALETTE_SIZE: usize = 256;

/// The movement of a frame: to its position, and none where that is not told.
pub open spec fn frame_view(frame: FileFrameView) -> FrameView {
    FrameView {
        translation: match frame.position {
            Some(position) => position,
            None => scene::zero(),
        },
        rotation: frame.rotation,
    }
}

/// A node with the movements of its frames.
pub open spec fn node_view(node: FileNodeView) -> NodeView {
    match node {
        FileNodeView::Transform { frames, child } => NodeView::Transform {
            frames: Seq::new(frames.len(), |i: int| frame_view(frames[i])),
            child,
        },
        FileNodeView::Group { children } => NodeView::Group { children },
        FileNodeView::Shape { models } => NodeView::Shape { models },
    }
}

fn resolve_frame(frame: &FileFrame) -> (r: Frame)
    ensures
        r@ == frame_view(frame@),
{
    let translation: IVec3 = match frame.position {
        Some(position) => position,
        None => IVec3 { x: 0, y: 0, z: 0 },
    };
    let rotation: Option<String> = match &frame.rotation {
        Some(text) => Some(text.clone()),
        None => None,
    };
    Frame { translation, rotation }
}

fn copy_ids(ids: &Vec<u32>) -> (r: Vec<u32>)
    ensures
        r@ == ids@,
{
    let mut copy: Vec<u32> = Vec::new();
    let mut i: usize = 0;
    while i < ids.len()
        invariant
            i <= ids@.len(),
            copy@ == ids@.take(i as int),
        decreases ids@.len() - i,
    {
        copy.push(ids[i]);
        i += 1;
        assert(copy@ =~= ids@.take(i as int));
    }
    assert(ids@.take(i as int) =~= ids@);
    copy
}

fn resolve_node(node: &FileNode) -> (r: SceneNode)
    ensures
        r@ == node_view(node@),
{
    match node {
        FileNode::Transform { frames, child } => {
            let mut resolved: Vec<Frame> = Vec::new();
            let mut i: usize = 0;
            while i < frames.len()
                invariant
                    i <= frames@.len(),
                    resolved@.len() == i,
                    forall|k: int|
                        0 <= k < i ==> (#[trigger] resolved@[k])@ == frame_view(frames@[k]@),
                decreases frames@.len() - i,
            {
                resolved.push(resolve_frame(&frames[i]));
                i += 1;
            }
            let r: SceneNode = SceneNode::Transform { frames: resolved, child: *child };
            proof {
                let expected = node_view(node@);
                assert(r@->Transform_frames =~= expected->Transform_frames);
            }
            r
        },
        FileNode::Group { children } => SceneNode::Group { children: copy_ids(children) },
        FileNode::Shape { models } => SceneNode::Shape { models: copy_ids(models) },
    }
}

/// The nodes of a scene graph with the movements of their frames.
pub fn resolve_nodes(nodes: &Vec<FileNode>) -> (r: Vec<SceneNode>)
    ensures
        r@.len() == nodes@.len(),
        forall|i: int| 0 <= i < r@.len() ==> (#[trigger] r@[i])@ == node_view(nodes@[i]@),
{
    let mut resolved: Vec<SceneNode> = Vec::new();
    let mut i: usize = 0;
    while i < nodes.len()
        invariant
            i <= nodes@.len(),
            resolved@.len() == i,
            forall|k: int| 0 <= k < i ==> (#[trigger] resolved@[k])@ == node_view(nodes@[k]@),
        decreases nodes@.len() - i,
    {
        resolved.push(resolve_node(&nodes[i]));
        i += 1;
    }
    resolved
}

/// A node of a scene is what the file says: a transform holds the same child and has a frame for
/// each of the file's, which moves by its position, not at all where it has none, and turns by the
/// same text; a group holds the same children, and a shape shows the same models.
pub proof fn law_nodes_keep_parts(node: FileNodeView)
    ensures
        match (node, node_view(node)) {
            (
                FileNodeView::Transform { frames, child },
                NodeView::Transform { frames: made, child: kept },
            ) => {
                &&& child == kept
                &&& frames.len() == made.len()
                &&& forall|i: int|
                    0 <= i < frames.len() ==> {
                        &&& (#[trigger] frames[i]).position is Some ==> made[i].translation
                            == frames[i].position->0
                        &&& frames[i].position is None ==> made[i].translation == (IVec3 {
                            x: 0,
                            y: 0,
                            z: 0,
                        })
                        &&& made[i].rotation == frames[i].rotation
                    }
            },
            (FileNodeView::Group { children }, NodeView::Group { children: kept }) => children
                == kept,
            (FileNodeView::Shape { models }, NodeView::Shape { models: kept }) => models == kept,
            _ => false,
        },
{
}

/// The model that an entity shows, where it shows one.
pub open spec fn shown_model(kind: EntityKind) -> Option<u32> {
    match kind {
        EntityKind::Group => None,
        EntityKind::Instance(id) => Some(id),
        EntityKind::Unplaced(id) => Some(id),
    }
}

/// The entities among the first `n` that show models, each with the model.
pub open spec fn instances_of(entities: Seq<EntityView>, n: nat) -> Seq<(u32, usize)>
    decreases n,
{
    if n == 0 {
        Seq::empty()
    } else {
        let before = instances_of(entities, (n - 1) as nat);
        match shown_model(entities[n - 1].kind) {
            Some(id) => before.push((id, (n - 1) as usize)),
            None => before,
        }
    }
}

/// Each entity that shows a model is listed with the model exactly once, in the order of the
/// entities, and no other is.
pub proof fn law_instances_show_models(entities: Seq<EntityView>, n: nat)
    requires
        n <= entities.len() <= usize::MAX,
    ensures
        forall|i: int|
            0 <= i < instances_of(entities, n).len() ==> {
                let (id, e) = #[trigger] instances_of(entities, n)[i];
                &&& e < n
                &&& entities[e as int].kind == EntityKind::Instance(id) || entities[e as int].kind
                    == EntityKind::Unplaced(id)
            },
        forall|i: int, j: int|
            0 <= i < j < instances_of(entities, n).len() ==> (#[trigger] instances_of(
                entities,
                n,
            )[i]).1 < (#[trigger] instances_of(entities, n)[j]).1,
        forall|e: int|
            0 <= e < n && (#[trigger] entities[e]).kind != EntityKind::Group ==> exists|i: int|
                0 <= i < instances_of(entities, n).len() && (#[trigger] instances_of(
                    entities,
                    n,
                )[i]).1 == e,
    decreases n,
{
    if n > 0 {
        let before = instances_of(entities, (n - 1) as nat);
        let instances = instances_of(entities, n);
        law_instances_show_models(entities, (n - 1) as nat);
        assert forall|e: int|
            0 <= e < n && (#[trigger] entities[e]).kind != EntityKind::Group implies exists|i: int|
            0 <= i < instances.len() && (#[trigger] instances[i]).1 == e by {
            if e < n - 1 {
                let i = choose|i: int| 0 <= i < before.len() && (#[trigger] before[i]).1 == e;
                assert(instances[i] == before[i]);
            } else {
                assert(instances[instances.len() - 1].1 == e);
            }
        }
    }
}

/// The entities of a scene that show models, each with the model.
pub fn scene_instances(scene: &VoxScene) -> (r: Vec<(u32, usize)>)
    ensures
        r@ == instances_of(scene.view_entities(), scene.entities@.len()),
{
    let mut instances: Vec<(u32, usize)> = Vec::new();
    let mut i: usize = 0;
    while i < scene.entities.len()
        invariant
            i <= scene.entities@.len(),
            instances@ == instances_of(scene.view_entities(), i as nat),
        decreases scene.entities@.len() - i,
    {
        assert(scene.view_entities()[i as int].kind == scene.entities@[i as int].kind);
        match scene.entities[i].kind {
            EntityKind::Group => {},
            EntityKind::Instance(id) => {
                instances.push((id, i));
            },
            EntityKind::Unplaced(id) => {
                instances.push((id, i));
            },
        }
        i += 1;
    }
    instances
}

/// Whether a list holds numbers from the smallest to the largest, none twice.
pub open spec fn increasing(ids: Seq<u32>) -> bool {
    forall|i: int, j: int| 0 <= i < j < ids.len() ==> #[trigger] ids[i] < #[trigger] ids[j]
}

/// Whether a model is one that is shown.
pub open spec fn is_shown(instances: Seq<(u32, usize)>, id: u32) -> bool {
    exists|i: int| 0 <= i < instances.len() && (#[trigger] instances[i]).0 == id
}

/// The models that are shown, from the smallest number to the largest.
pub fn referenced_models(instances: &Vec<(u32, usize)>) -> (r: Vec<u32>)
    ensures
        increasing(r@),
        forall|id: u32| r@.contains(id) <==> #[trigger] is_shown(instances@, id),
{
    broadcast use vstd::std_specs::btree::group_btree_axioms;

    let mut shown: BTreeSet<u32> = BTreeSet::new();
    let mut i: usize = 0;
    while i < instances.len()
        invariant
            i <= instances@.len(),
            forall|id: u32|
                shown@.contains(id) <==> #[trigger] is_shown(instances@.take(i as int), id),
        decreases instances@.len() - i,
    {
        let id: u32 = instances[i].0;
        let ghost before = shown@;
        shown.insert(id);
        proof {
            let earlier = instances@.take(i as int);
            let later = instances@.take(i + 1);
            assert forall|other: u32| shown@.contains(other) <==> #[trigger] is_shown(
                later,
                other,
            ) by {
                assert(is_shown(earlier, other) <==> before.contains(other));
                if is_shown(earlier, other) {
                    let k = choose|k: int| 0 <= k < earlier.len() && (#[trigger] earlier[k]).0 == other;
                    assert(later[k].0 == other);
                }
                if is_shown(later, other) {
                    let k = choose|k: int| 0 <= k < later.len() && (#[trigger] later[k]).0 == other;
                    if k < i {
                        assert(earlier[k].0 == other);
                    }
                }
                assert(later[i as int].0 == id);
            }
        }
        i += 1;
    }
    assert(instances@.take(i as int) =~= instances@);
    listed_ids(&shown)
}

/// What a set hands out in increasing order are increasing numbers.
proof fn lemma_listing_increases(order: Seq<&u32>)
    requires
        vstd::std_specs::btree::increasing_seq(order),
    ensures
        increasing(order.unref()),
{
    broadcast use vstd::std_specs::btree::group_btree_axioms;
    broadcast use vstd::laws_cmp::group_laws_cmp;

    assert(vstd::laws_cmp::obeys_cmp::<u32>());
    assert(vstd::laws_cmp::obeys_cmp::<&u32>());
    assert forall|i: int, j: int| 0 <= i < j < order.len() implies #[trigger] order.unref()[i]
        < #[trigger] order.unref()[j] by {
        assert(vstd::std_specs::cmp::OrdSpec::cmp_spec(&order[i], &order[j]) is Less);
    }
}

/// The numbers of a set, from the smallest to the largest.
fn listed_ids(shown: &BTreeSet<u32>) -> (r: Vec<u32>)
    ensures
        increasing(r@),
        forall|id: u32| #[trigger] r@.contains(id) <==> shown@.contains(id),
{
    broadcast use vstd::std_specs::btree::group_btree_axioms;

    let mut ids: Vec<u32> = Vec::new();
    let ghost order: Seq<&u32> = vstd::std_specs::iter::IteratorSpec::remaining(
        &vstd::std_specs::btree::spec_btree_keys_iter(shown),
    );
    for id in listing: shown.iter()
        invariant
            listing.seq() == order,
            ids@ == order.unref().take(listing.index()),
    {
        ids.push(*id);
    }
    proof {
        lemma_listing_increases(order);
        assert(ids@ =~= order.unref());
        assert forall|id: u32| #[trigger] ids@.contains(id) <==> shown@.contains(id) by {
            assert(order.unref().to_set().contains(id) <==> order.unref().contains(id));
        }
    }
    ids
}

/// The place of a material among the parameters of all materials, where it has one. Materials are
/// counted from one, and material 0 stands for the first.
pub fn material_table_index(material_id: u32) -> (r: Option<usize>)
    ensures
        r == table_index(material_id),
{
    let index: usize = if material_id == 0 {
        0
    } else {
        (material_id - 1) as usize
    };
    if index < 256 {
        Some(index)
    } else {
        None
    }
}

/// The place of a material among the parameters of all materials, where it has one.
pub open spec fn table_index(material_id: u32) -> Option<usize> {
    if material_id == 0 {
        Some(0)
    } else if material_id <= 256 {
        Some((material_id - 1) as usize)
    } else {
        None
    }
}

/// The materials among the first `n` that have a place, each by that place and by its own.
pub open spec fn table_rows(materials: Seq<FileMaterialView>, n: nat) -> Seq<(usize, usize)>
    decreases n,
{
    if n == 0 {
        Seq::empty()
    } else {
        let before = table_rows(materials, (n - 1) as nat);
        match table_index(materials[n - 1].id) {
            Some(index) => before.push((index, (n - 1) as usize)),
            None => before,
        }
    }
}

/// The materials of a file, by their parts.
pub open spec fn materials_view(materials: Seq<FileMaterial>) -> Seq<FileMaterialView> {
    Seq::new(materials.len(), |i: int| materials[i]@)
}

/// Materials are told one by one, in order, each with its number and the text of its kind.
pub proof fn law_materials_list(materials: Seq<FileMaterial>, i: int)
    requires
        0 <= i < materials.len(),
    ensures
        materials_view(materials).len() == materials.len(),
        materials_view(materials)[i] == materials[i]@,
        materials[i]@.id == materials[i].id,
        materials[i].kind matches Some(text) ==> materials[i]@.kind == Some(text@),
        materials[i].kind is None ==> materials[i]@.kind is None,
{
}

/// The materials that have a place among the parameters of all materials, each by that place and
/// by its own. Where two have the same place, the later one counts.
pub fn material_rows(materials: &Vec<FileMaterial>) -> (r: Vec<(usize, usize)>)
    ensures
        r@ == table_rows(materials_view(materials@), materials@.len()),
{
    let mut rows: Vec<(usize, usize)> = Vec::new();
    let mut i: usize = 0;
    while i < materials.len()
        invariant
            i <= materials@.len(),
            rows@ == table_rows(materials_view(materials@), i as nat),
        decreases materials@.len() - i,
    {
        assert(materials_view(materials@)[i as int].id == materials@[i as int].id);
        if let Some(index) = material_table_index(materials[i].id) {
            rows.push((index, i));
        }
        i += 1;
    }
    rows
}

/// Each row tells one of the materials, by its own place, with the place of its number: numbers
/// are counted from one, and 0 stands for the first. The rows are in the order of the materials,
/// and each material whose number is at most 256 has exactly one row.
pub proof fn law_rows_tell_materials(materials: Seq<FileMaterialView>, n: nat)
    requires
        n <= materials.len() <= usize::MAX,
    ensures
        forall|i: int|
            0 <= i < table_rows(materials, n).len() ==> {
                let row = #[trigger] table_rows(materials, n)[i];
                &&& row.1 < n
                &&& materials[row.1 as int].id <= 256
                &&& materials[row.1 as int].id == 0 ==> row.0 == 0
                &&& materials[row.1 as int].id > 0 ==> row.0 + 1 == materials[row.1 as int].id
            },
        forall|i: int, j: int|
            0 <= i < j < table_rows(materials, n).len() ==> (#[trigger] table_rows(
                materials,
                n,
            )[i]).1 < (#[trigger] table_rows(materials, n)[j]).1,
        forall|k: int|
            0 <= k < n && (#[trigger] materials[k]).id <= 256 ==> exists|i: int|
                0 <= i < table_rows(materials, n).len() && (#[trigger] table_rows(
                    materials,
                    n,
                )[i]).1 == k,
    decreases n,
{
    if n > 0 {
        let before = table_rows(materials, (n - 1) as nat);
        let rows = table_rows(materials, n);
        law_rows_tell_materials(materials, (n - 1) as nat);
        assert forall|k: int|
            0 <= k < n && (#[trigger] materials[k]).id <= 256 implies exists|i: int|
            0 <= i < rows.len() && (#[trigger] rows[i]).1 == k by {
            if k < n - 1 {
                let i = choose|i: int| 0 <= i < before.len() && (#[trigger] before[i]).1 == k;
                assert(rows[i] == before[i]);
            } else {
                assert(rows[rows.len() - 1].1 == k);
            }
        }
    }
}

/// The colors one after the other, each as red, green, blue and alpha.
pub open spec fn color_bytes(palette: Seq<[u8; 4]>) -> Seq<u8> {
    Seq::new((palette.len() * 4) as nat, |k: int| palette[k / 4]@[k % 4])
}

/// The colors one after the other, where there are as many as a file has.
pub fn palette_bytes(palette: &Vec<[u8; 4]>) -> (r: Option<Vec<u8>>)
    ensures
        r is Some <==> palette@.len() == PALETTE_SIZE,
        r matches Some(bytes) ==> bytes@ == color_bytes(palette@),
        r matches Some(bytes) ==> bytes@.len() == 1024 && forall|i: int, c: int|
            0 <= i < 256 && 0 <= c < 4 ==> bytes@[4 * i + c] == #[trigger] palette@[i]@[c],
{
    if palette.len() != PALETTE_SIZE {
        return None;
    }
    let mut bytes: Vec<u8> = Vec::new();
    let mut i: usize = 0;
    while i < PALETTE_SIZE
        invariant
            i <= PALETTE_SIZE,
            palette@.len() == PALETTE_SIZE,
            bytes@ == color_bytes(palette@).take(i * 4),
        decreases PALETTE_SIZE - i,
    {
        let color: [u8; 4] = palette[i];
        bytes.push(color[0]);
        bytes.push(color[1]);
        bytes.push(color[2]);
        bytes.push(color[3]);
        i += 1;
        assert(bytes@ =~= color_bytes(palette@).take(i * 4));
    }
    assert(bytes@ =~= color_bytes(palette@));
    Some(bytes)
}

/// A model that is shown, and its tree.
pub struct LoadedModel {
    pub id: u32,
    pub tree: Tree<u8>,
}

/// All that is made of a voxel file.
pub struct LoadedVox {
    pub scene: VoxScene,
    pub instances: Vec<(u32, usize)>,
    pub models: Vec<LoadedModel>,
    pub palette: Vec<u8>,
    pub materials: Vec<FileMaterial>,
    pub material_rows: Vec<(usize, usize)>,
}

/// Whether the voxels of a model can be placed in its tree.
pub open spec fn loadable(models: Seq<ModelView>, id: u32) -> bool {
    id < models.len() && model::placeable(models[id as int].size.y, models[id as int].voxels)
}

/// Whether every model that an entity shows can be loaded.
pub open spec fn all_loadable(entities: Seq<EntityView>, models: Seq<ModelView>) -> bool {
    forall|id: u32|
        #[trigger] is_shown(instances_of(entities, entities.len()), id) ==> loadable(models, id)
}

/// Whether a scene can be made of a file.
pub open spec fn supported(
    nodes: Seq<NodeView>,
    models: Seq<ModelView>,
    palette: Seq<[u8; 4]>,
) -> bool {
    &&& scene::scene_entities(nodes, models) is Some
    &&& all_loadable(scene::scene_entities(nodes, models)->0, models)
    &&& palette.len() == PALETTE_SIZE
}

/// Whether a tree is that of a model.
pub open spec fn tree_of(tree: Tree<u8>, model: ModelView) -> bool {
    &&& tree.wf()
    &&& tree.levels() == model::material_levels()
    &&& forall|c: UVec3|
        tree.covers(c) ==> #[trigger] tree.value(c) == model::last_value(
            model::tree_voxels(model.size.y, model.voxels),
            model.voxels.len(),
            c,
        )
}

/// Whether one of the loaded models has a number.
pub open spec fn is_loaded(models: Seq<LoadedModel>, id: u32) -> bool {
    exists|k: int| 0 <= k < models.len() && (#[trigger] models[k]).id == id
}

impl LoadedVox {
    /// Whether this is what is made of a file.
    pub open spec fn made_of(
        &self,
        nodes: Seq<NodeView>,
        models: Seq<ModelView>,
        palette: Seq<[u8; 4]>,
        materials: Seq<FileMaterialView>,
    ) -> bool {
        let entities = self.scene.view_entities();
        &&& scene::scene_entities(nodes, models) == Some(entities)
        &&& self.instances@ == instances_of(entities, entities.len())
        &&& forall|i: int, j: int|
            0 <= i < j < self.models@.len() ==> (#[trigger] self.models@[i]).id < (
            #[trigger] self.models@[j]).id
        &&& forall|id: u32|
            #[trigger] is_shown(self.instances@, id) ==> is_loaded(self.models@, id)
        &&& forall|k: int|
            0 <= k < self.models@.len() ==> is_shown(
                self.instances@,
                (#[trigger] self.models@[k]).id,
            ) && tree_of(self.models@[k].tree, models[self.models@[k].id as int])
        &&& self.palette@ == color_bytes(palette)
        &&& materials_view(self.materials@) == materials
        &&& self.material_rows@ == table_rows(materials, materials.len())
    }
}

/// A model is shown just where some entity shows it.
pub proof fn law_shown_models(entities: Seq<EntityView>, id: u32)
    requires
        entities.len() <= usize::MAX,
    ensures
        is_shown(instances_of(entities, entities.len()), id) <==> exists|e: int|
            0 <= e < entities.len() && ((#[trigger] entities[e]).kind == EntityKind::Instance(id)
                || entities[e].kind == EntityKind::Unplaced(id)),
{
    let instances = instances_of(entities, entities.len());
    law_instances_show_models(entities, entities.len());
    if is_shown(instances, id) {
        let i = choose|i: int| 0 <= i < instances.len() && (#[trigger] instances[i]).0 == id;
        let e = instances[i].1 as int;
        assert(entities[e].kind == EntityKind::Instance(id) || entities[e].kind
            == EntityKind::Unplaced(id));
    }
    if exists|e: int|
        0 <= e < entities.len() && ((#[trigger] entities[e]).kind == EntityKind::Instance(id)
            || entities[e].kind == EntityKind::Unplaced(id)) {
        let e = choose|e: int|
            0 <= e < entities.len() && ((#[trigger] entities[e]).kind == EntityKind::Instance(id)
                || entities[e].kind == EntityKind::Unplaced(id));
        let i = choose|i: int| 0 <= i < instances.len() && (#[trigger] instances[i]).1 == e;
        assert(instances[i].0 == id);
    }
}

/// Whether every voxel of a model lies inside it along its second axis and has a color that can be
/// counted from one, and the voxels can be counted.
pub open spec fn voxels_fit(model: ModelView) -> bool {
    &&& model.voxels.len() <= u32::MAX
    &&& forall|i: int|
        0 <= i < model.voxels.len() ==> (#[trigger] model.voxels[i]).y < model.size.y
            && model.voxels[i].i < 255
}

/// A scene can be made of a file just where its graph makes one, it has 256 colors, and the voxels of
/// every model that an entity shows fit.
pub proof fn law_supported(
    nodes: Seq<NodeView>,
    models: Seq<ModelView>,
    palette: Seq<[u8; 4]>,
    entities: Seq<EntityView>,
)
    requires
        scene::scene_entities(nodes, models) is Some ==> scene::scene_entities(nodes, models)
            == Some(entities) && entities.len() <= usize::MAX,
    ensures
        supported(nodes, models, palette) <==> {
            &&& scene::scene_entities(nodes, models) is Some
            &&& palette.len() == 256
            &&& forall|e: int|
                0 <= e < entities.len() ==> match (#[trigger] entities[e]).kind {
                    EntityKind::Group => true,
                    EntityKind::Instance(id) => id < models.len() && voxels_fit(
                        models[id as int],
                    ),
                    EntityKind::Unplaced(id) => id < models.len() && voxels_fit(
                        models[id as int],
                    ),
                }
        },
{
    if scene::scene_entities(nodes, models) is Some {
        let instances = instances_of(entities, entities.len());
        assert forall|id: u32| #[trigger] is_shown(instances, id) <==> exists|e: int|
            0 <= e < entities.len() && ((#[trigger] entities[e]).kind == EntityKind::Instance(id)
                || entities[e].kind == EntityKind::Unplaced(id)) by {
            law_shown_models(entities, id);
        }
        if all_loadable(entities, models) {
            assert forall|e: int| 0 <= e < entities.len() implies match (#[trigger] entities[e]).kind {
                EntityKind::Group => true,
                EntityKind::Instance(id) => id < models.len() && voxels_fit(models[id as int]),
                EntityKind::Unplaced(id) => id < models.len() && voxels_fit(models[id as int]),
            } by {
                match entities[e].kind {
                    EntityKind::Group => {},
                    EntityKind::Instance(id) => {
                        assert(is_shown(instances, id));
                    },
                    EntityKind::Unplaced(id) => {
                        assert(is_shown(instances, id));
                    },
                }
            }
        }
    }
}

/// A scene that was made of a file shows, in each tree, the colors of the voxels of the model with
/// its number, counted from one. Each model that an entity shows is there exactly once and no other
/// is, and the colors are those of the file.
pub proof fn law_loaded_file(
    loaded: LoadedVox,
    nodes: Seq<NodeView>,
    models: Seq<ModelView>,
    palette: Seq<[u8; 4]>,
    materials: Seq<FileMaterialView>,
    k: int,
    c: UVec3,
)
    requires
        supported(nodes, models, palette),
        loaded.made_of(nodes, models, palette, materials),
        0 <= k < loaded.models@.len(),
        loaded.models@[k].tree.covers(c),
    ensures
        ({
            let model = models[loaded.models@[k].id as int];
            match loaded.models@[k].tree.value(c) {
                Some(value) => exists|v: int|
                    0 <= v < model.voxels.len() && model::stands_at(
                        model.size.y,
                        #[trigger] model.voxels[v],
                        c,
                    ) && value == model.voxels[v].i + 1,
                None => forall|v: int|
                    0 <= v < model.voxels.len() ==> !model::stands_at(
                        model.size.y,
                        #[trigger] model.voxels[v],
                        c,
                    ),
            }
        }),
        exists|i: int|
            0 <= i < loaded.instances@.len() && (#[trigger] loaded.instances@[i]).0
                == loaded.models@[k].id,
        forall|l: int|
            0 <= l < loaded.models@.len() && l != k ==> (#[trigger] loaded.models@[l]).id
                != loaded.models@[k].id,
        forall|i: int|
            0 <= i < loaded.instances@.len() ==> exists|l: int|
                0 <= l < loaded.models@.len() && (#[trigger] loaded.models@[l]).id == (
                #[trigger] loaded.instances@[i]).0,
        loaded.palette@.len() == 1024,
        forall|i: int, b: int|
            0 <= i < 256 && 0 <= b < 4 ==> loaded.palette@[4 * i + b] == #[trigger] palette[i]@[b],
{
    let id = loaded.models@[k].id;
    let model = models[id as int];
    assert(is_shown(loaded.instances@, id));
    assert(loadable(models, id));
    assert(tree_of(loaded.models@[k].tree, model));
    assert(loaded.models@[k].tree.value(c) == model::last_value(
        model::tree_voxels(model.size.y, model.voxels),
        model.voxels.len(),
        c,
    ));
    model::law_tree_tells_colors(model.size.y, model.voxels, model.voxels.len(), c);
    assert forall|i: int| 0 <= i < loaded.instances@.len() implies exists|l: int|
        0 <= l < loaded.models@.len() && (#[trigger] loaded.models@[l]).id == (
        #[trigger] loaded.instances@[i]).0 by {
        assert(is_shown(loaded.instances@, loaded.instances@[i].0));
        assert(is_loaded(loaded.models@, loaded.instances@[i].0));
    }
}

/// The trees of the given models, where their voxels can be placed.
fn load_models(ids: &Vec<u32>, models: &Vec<FileModel>) -> (r: Option<Vec<LoadedModel>>)
    ensures
        r is Some <==> forall|k: int|
            0 <= k < ids@.len() ==> (#[trigger] ids@[k]) < models@.len() && model::placeable(
                models@[ids@[k] as int].size.y,
                models@[ids@[k] as int].voxels@,
            ),
        r matches Some(loaded) ==> {
            &&& loaded@.len() == ids@.len()
            &&& forall|k: int|
                0 <= k < loaded@.len() ==> (#[trigger] loaded@[k]).id == ids@[k] && tree_of(
                    loaded@[k].tree,
                    models@[ids@[k] as int]@,
                )
        },
{
    let mut loaded: Vec<LoadedModel> = Vec::new();
    let mut i: usize = 0;
    while i < ids.len()
        invariant
            i <= ids@.len(),
            loaded@.len() == i,
            forall|k: int|
                0 <= k < i ==> (#[trigger] ids@[k]) < models@.len() && model::placeable(
                    models@[ids@[k] as int].size.y,
                    models@[ids@[k] as int].voxels@,
                ),
            forall|k: int|
                0 <= k < i ==> (#[trigger] loaded@[k]).id == ids@[k] && tree_of(
                    loaded@[k].tree,
                    models@[ids@[k] as int]@,
                ),
        decreases ids@.len() - i,
    {
        let id: u32 = ids[i];
        if id as usize >= models.len() {
            return None;
        }
        match model::model_to_tree(&models[id as usize]) {
            Some(tree) => {
                loaded.push(LoadedModel { id, tree });
            },
            None => {
                return None;
            },
        }
        i += 1;
    }
    Some(loaded)
}

/// Makes a scene of the parts of a file, where that can be done.
pub fn assemble(
    nodes: &Vec<SceneNode>,
    models: &Vec<FileModel>,
    palette: &Vec<[u8; 4]>,
    materials: Vec<FileMaterial>,
) -> (r: Option<LoadedVox>)
    ensures
        r is Some <==> supported(
            scene::nodes_view(nodes@),
            scene::models_view(models@),
            palette@,
        ),
        r matches Some(loaded) ==> loaded.made_of(
            scene::nodes_view(nodes@),
            scene::models_view(models@),
            palette@,
            materials_view(materials@),
        ),
{
    let scene: VoxScene = match VoxScene::traverse(nodes, models) {
        Some(scene) => scene,
        None => {
            return None;
        },
    };
    let color_bytes: Vec<u8> = match palette_bytes(palette) {
        Some(bytes) => bytes,
        None => {
            return None;
        },
    };
    let instances: Vec<(u32, usize)> = scene_instances(&scene);
    let ids: Vec<u32> = referenced_models(&instances);
    let ghost views = scene::models_view(models@);
    let ghost entities = scene.view_entities();
    let loaded: Vec<LoadedModel> = match load_models(&ids, models) {
        Some(loaded) => loaded,
        None => {
            proof {
                let k = choose|k: int|
                    0 <= k < ids@.len() && !((#[trigger] ids@[k]) < models@.len()
                        && model::placeable(
                        models@[ids@[k] as int].size.y,
                        models@[ids@[k] as int].voxels@,
                    ));
                let id = ids@[k];
                assert(ids@.contains(id));
                assert(id < views.len() ==> views[id as int] == models@[id as int]@);
                assert(is_shown(instances_of(entities, entities.len()), id));
                assert(!loadable(views, id));
                assert(!all_loadable(entities, views));
            }
            return None;
        },
    };
    proof {
        assert forall|id: u32| #[trigger] is_shown(instances@, id) implies loadable(views, id)
            && is_loaded(loaded@, id) by {
            assert(ids@.contains(id));
            let k = choose|k: int| 0 <= k < ids@.len() && ids@[k] == id;
            assert(ids@[k] < models@.len());
            assert(views[id as int] == models@[id as int]@);
            assert(loaded@[k].id == id);
        }
        assert forall|i: int, j: int| 0 <= i < j < loaded@.len() implies (#[trigger] loaded@[i]).id
            < (#[trigger] loaded@[j]).id by {
            assert(ids@[i] < ids@[j]);
        }
        assert forall|k: int| 0 <= k < loaded@.len() implies is_shown(
            instances@,
            (#[trigger] loaded@[k]).id,
        ) && tree_of(loaded@[k].tree, views[loaded@[k].id as int]) by {
            assert(ids@.contains(ids@[k]));
            assert(is_shown(instances@, ids@[k]));
            assert(ids@[k] < models@.len());
        }
        assert(all_loadable(entities, views));
    }
    let material_rows: Vec<(usize, usize)> = material_rows(&materials);
    Some(
        LoadedVox {
            scene,
            instances,
            models: loaded,
            palette: color_bytes,
            materials,
            material_rows,
        },
    )
}

/// The scene that the bytes of a file stand for, or why there is none.
pub fn load(bytes: &[u8]) -> (r: Result<LoadedVox, VoxLoadingError>)
    ensures
        match file::vox_data(bytes@) {
            Err(reason) => r matches Err(VoxLoadingError::ParseError(text)) && text@ == reason,
            Ok(data) => {
                let nodes = file::vox_nodes(data).map_values(|node: FileNodeView| node_view(node));
                let models = file::vox_models(data);
                let palette = file::vox_palette(data);
                if supported(nodes, models, palette) {
                    r matches Ok(loaded) && loaded.made_of(
                        nodes,
                        models,
                        palette,
                        file::vox_materials(data),
                    )
                } else {
                    r matches Err(VoxLoadingError::Unsupported)
                }
            },
        },
{
    match file::load_bytes(bytes) {
        Err(reason) => Err(VoxLoadingError::ParseError(reason)),
        Ok(data) => {
            let file_nodes: Vec<FileNode> = file::nodes(&data);
            let nodes: Vec<SceneNode> = resolve_nodes(&file_nodes);
            let models: Vec<FileModel> = file::models(&data);
            let palette: Vec<[u8; 4]> = file::palette(&data);
            let materials: Vec<FileMaterial> = file::materials(&data);
            proof {
                assert(scene::nodes_view(nodes@) =~= file::vox_nodes(data).map_values(
                    |node: FileNodeView| node_view(node),
                ));
                assert(scene::models_view(models@) =~= file::vox_models(data));
                assert(materials_view(materials@) =~= file::vox_materials(data));
            }
            match assemble(&nodes, &models, &palette, materials) {
                Some(loaded) => Ok(loaded),
                None => Err(VoxLoadingError::Unsupported),
            }
        },
    }
}

} // verus!
