//! The scene that the scene graph of a voxel file stands for.

use super::file;
use super::file::FileModel;
use super::file::ModelView;
use crate::math::IVec3;
use crate::math::UVec3;
use vstd::prelude::*;

verus! {

/// Where a frame is, and the text that says how it is turned.
pub struct Frame {
    pub translation: IVec3,
    pub rotation: Option<String>,
}

/// A node of the scene graph.
pub enum SceneNode {
    Transform { frames: Vec<Frame>, child: u32 },
    Group { children: Vec<u32> },
    Shape { models: Vec<u32> },
}

/// A frame, by its parts.
pub struct FrameView {
    pub translation: IVec3,
    pub rotation: Option<Seq<char>>,
}

/// A node of the scene graph, by its parts.
pub enum NodeView {
    Transform { frames: Seq<FrameView>, child: u32 },
    Group { children: Seq<u32> },
    Shape { models: Seq<u32> },
}

impl View for Frame {
    type V = FrameView;

    open spec fn view(&self) -> FrameView {
        FrameView { translation: self.translation, rotation: file::text_view(self.rotation) }
    }
}

impl View for SceneNode {
    type V = NodeView;

    open spec fn view(&self) -> NodeView {
        match *self {
            SceneNode::Transform { frames, child } => NodeView::Transform {
                frames: Seq::new(frames@.len(), |i: int| frames@[i]@),
                child,
            },
            SceneNode::Group { children } => NodeView::Group { children: children@ },
            SceneNode::Shape { models } => NodeView::Shape { models: models@ },
        }
    }
}

/// What an entity of a scene is.
#[derive(Clone, Copy, Debug, PartialEq, Eq, Structural)]
pub enum EntityKind {
    /// It holds other entities.
    Group,
    /// It shows a model.
    Instance(u32),
    /// It shows a model that nothing is said of where it stands.
    Unplaced(u32),
}

/// An entity of a scene: what it is, the entity that holds it, where it stands, the text that says
/// how it is turned, and the size of the model that it shows.
pub struct SceneEntity {
    pub parent: Option<usize>,
    pub kind: EntityKind,
    pub translation: IVec3,
    pub rotation: Option<String>,
    pub size: UVec3,
}

/// An entity of a scene, by its parts.
pub struct EntityView {
    pub parent: Option<usize>,
    pub kind: EntityKind,
    pub translation: IVec3,
    pub rotation: Option<Seq<char>>,
    pub size: UVec3,
}

impl View for SceneEntity {
    type V = EntityView;

    open spec fn view(&self) -> EntityView {
        EntityView {
            parent: self.parent,
            kind: self.kind,
            translation: self.translation,
            rotation: file::text_view(self.rotation),
            size: self.size,
        }
    }
}

/// The entities of a scene, each after the one that holds it.
pub struct VoxScene {
    pub entities: Vec<SceneEntity>,
}

/// The entities of a scene, by their parts.
pub open spec fn entities_view(entities: Seq<SceneEntity>) -> Seq<EntityView> {
    Seq::new(entities.len(), |i: int| entities[i]@)
}

/// The nodes of a scene graph, by their parts.
pub open spec fn nodes_view(nodes: Seq<SceneNode>) -> Seq<NodeView> {
    Seq::new(nodes.len(), |i: int| nodes[i]@)
}

/// The models of a file, by their parts.
pub open spec fn models_view(models: Seq<FileModel>) -> Seq<ModelView> {
    Seq::new(models.len(), |i: int| models[i]@)
}

/// Whether a number fits into 32 bits.
pub open spec fn fits(x: int) -> bool {
    i32::MIN <= x <= i32::MAX
}

/// No movement.
pub open spec fn zero() -> IVec3 {
    IVec3 { x: 0, y: 0, z: 0 }
}

/// The sum of two movements, where it can be told.
pub open spec fn moved(a: IVec3, b: IVec3) -> Option<IVec3> {
    if fits(a.x + b.x) && fits(a.y + b.y) && fits(a.z + b.z) {
        Some(IVec3 { x: (a.x + b.x) as i32, y: (a.y + b.y) as i32, z: (a.z + b.z) as i32 })
    } else {
        None
    }
}

/// The entities once a node has been added to them, with all that it holds. A transform moves what
/// it holds, and turns it alone; a group is an entity that holds others; a shape is an entity that
/// shows a model, and none where the model has no voxels.
///
/// There are none where a node or a model does not exist, a transform has not one frame, a shape
/// has not one model, a movement cannot be told, or nodes are nested deeper than `fuel`.
pub open spec fn with_node(
    nodes: Seq<NodeView>,
    models: Seq<ModelView>,
    node: u32,
    parent: Option<usize>,
    translation: IVec3,
    rotation: Option<Seq<char>>,
    fuel: nat,
    entities: Seq<EntityView>,
) -> Option<Seq<EntityView>>
    decreases fuel, 0nat,
{
    if fuel == 0 || node >= nodes.len() {
        None
    } else {
        match nodes[node as int] {
            NodeView::Transform { frames, child } => {
                if frames.len() != 1 {
                    None
                } else {
                    match moved(translation, frames[0].translation) {
                        Some(translation) => with_node(
                            nodes,
                            models,
                            child,
                            parent,
                            translation,
                            frames[0].rotation,
                            (fuel - 1) as nat,
                            entities,
                        ),
                        None => None,
                    }
                }
            },
            NodeView::Group { children } => with_children(
                nodes,
                models,
                children,
                0,
                entities.len() as usize,
                (fuel - 1) as nat,
                entities.push(
                    EntityView {
                        parent,
                        kind: EntityKind::Group,
                        translation,
                        rotation,
                        size: UVec3 { x: 0, y: 0, z: 0 },
                    },
                ),
            ),
            NodeView::Shape { models: ids } => {
                if ids.len() != 1 || ids[0] >= models.len() {
                    None
                } else if models[ids[0] as int].voxels.len() == 0 {
                    Some(entities)
                } else {
                    Some(
                        entities.push(
                            EntityView {
                                parent,
                                kind: EntityKind::Instance(ids[0]),
                                translation,
                                rotation,
                                size: models[ids[0] as int].size,
                            },
                        ),
                    )
                }
            },
        }
    }
}

/// The entities once the nodes from `i` on have been added to them, held by the entity `parent`.
pub open spec fn with_children(
    nodes: Seq<NodeView>,
    models: Seq<ModelView>,
    children: Seq<u32>,
    i: nat,
    parent: usize,
    fuel: nat,
    entities: Seq<EntityView>,
) -> Option<Seq<EntityView>>
    decreases
            fuel,
            (if i < children.len() {
                children.len() - i + 1
            } else {
                1
            }) as nat,
{
    if i >= children.len() {
        Some(entities)
    } else {
        match with_node(
            nodes,
            models,
            children[i as int],
            Some(parent),
            zero(),
            None,
            fuel,
            entities,
        ) {
            Some(entities) => with_children(
                nodes,
                models,
                children,
                i + 1,
                parent,
                fuel,
                entities,
            ),
            None => None,
        }
    }
}

/// The entities of the scene that a file stands for. Without a scene graph, the only model of the
/// file is shown. Nodes that do not hold themselves are nested no deeper than there are nodes.
pub open spec fn scene_entities(
    nodes: Seq<NodeView>,
    models: Seq<ModelView>,
) -> Option<Seq<EntityView>> {
    if nodes.len() == 0 {
        if models.len() != 1 {
            None
        } else if models[0].voxels.len() == 0 {
            Some(Seq::empty())
        } else {
            Some(
                seq![
                    EntityView {
                        parent: None,
                        kind: EntityKind::Unplaced(0),
                        translation: zero(),
                        rotation: None,
                        size: models[0].size,
                    },
                ],
            )
        }
    } else {
        with_node(nodes, models, 0, None, zero(), None, nodes.len(), Seq::empty())
    }
}

fn moved_by(a: IVec3, b: IVec3) -> (r: Option<IVec3>)
    ensures
        r == moved(a, b),
{
    match (a.x.checked_add(b.x), a.y.checked_add(b.y), a.z.checked_add(b.z)) {
        (Some(x), Some(y), Some(z)) => Some(IVec3 { x, y, z }),
        _ => None,
    }
}

fn copy_text(text: &Option<String>) -> (r: Option<String>)
    ensures
        file::text_view(r) == file::text_view(*text),
{
    match text {
        Some(text) => Some(text.clone()),
        None => None,
    }
}

impl VoxScene {
    /// The entities, by their parts.
    pub open spec fn view_entities(&self) -> Seq<EntityView> {
        entities_view(self.entities@)
    }

    fn add(&mut self, entity: SceneEntity)
        ensures
            final(self).view_entities() == old(self).view_entities().push(entity@),
            final(self).entities@.len() == old(self).entities@.len() + 1,
    {
        self.entities.push(entity);
        assert(self.view_entities() =~= old(self).view_entities().push(entity@));
    }

    /// Adds a node, with all that it holds, and tells whether that could be done.
    fn traverse_recursive(
        &mut self,
        nodes: &Vec<SceneNode>,
        models: &Vec<FileModel>,
        node: u32,
        parent: Option<usize>,
        translation: IVec3,
        rotation: &Option<String>,
        fuel: usize,
    ) -> (r: bool)
        ensures
            ({
                let expected = with_node(
                    nodes_view(nodes@),
                    models_view(models@),
                    node,
                    parent,
                    translation,
                    file::text_view(*rotation),
                    fuel as nat,
                    old(self).view_entities(),
                );
                &&& r == (expected is Some)
                &&& r ==> Some(final(self).view_entities()) == expected
            }),
        decreases fuel, 0nat,
    {
        if fuel == 0 || node as usize >= nodes.len() {
            return false;
        }
        match &nodes[node as usize] {
            SceneNode::Transform { frames, child } => {
                if frames.len() != 1 {
                    return false;
                }
                match moved_by(translation, frames[0].translation) {
                    Some(translation) => self.traverse_recursive(
                        nodes,
                        models,
                        *child,
                        parent,
                        translation,
                        &frames[0].rotation,
                        fuel - 1,
                    ),
                    None => false,
                }
            },
            SceneNode::Group { children } => {
                let entity: usize = self.entities.len();
                self.add(
                    SceneEntity {
                        parent,
                        kind: EntityKind::Group,
                        translation,
                        rotation: copy_text(rotation),
                        size: UVec3 { x: 0, y: 0, z: 0 },
                    },
                );
                self.traverse_children(nodes, models, children, entity, fuel - 1)
            },
            SceneNode::Shape { models: ids } => {
                if ids.len() != 1 || ids[0] as usize >= models.len() {
                    return false;
                }
                let id: u32 = ids[0];
                if models[id as usize].voxels.len() == 0 {
                    return true;
                }
                self.add(
                    SceneEntity {
                        parent,
                        kind: EntityKind::Instance(id),
                        translation,
                        rotation: copy_text(rotation),
                        size: models[id as usize].size,
                    },
                );
                true
            },
        }
    }

    fn traverse_children(
        &mut self,
        nodes: &Vec<SceneNode>,
        models: &Vec<FileModel>,
        children: &Vec<u32>,
        parent: usize,
        fuel: usize,
    ) -> (r: bool)
        ensures
            ({
                let expected = with_children(
                    nodes_view(nodes@),
                    models_view(models@),
                    children@,
                    0,
                    parent,
                    fuel as nat,
                    old(self).view_entities(),
                );
                &&& r == (expected is Some)
                &&& r ==> Some(final(self).view_entities()) == expected
            }),
        decreases fuel, 1nat,
    {
        let mut i: usize = 0;
        let ghost before = self.view_entities();
        while i < children.len()
            invariant
                i <= children@.len(),
                before == old(self).view_entities(),
                with_children(
                    nodes_view(nodes@),
                    models_view(models@),
                    children@,
                    0,
                    parent,
                    fuel as nat,
                    before,
                ) == with_children(
                    nodes_view(nodes@),
                    models_view(models@),
                    children@,
                    i as nat,
                    parent,
                    fuel as nat,
                    self.view_entities(),
                ),
            decreases children@.len() - i,
        {
            let none: Option<String> = None;
            if !self.traverse_recursive(
                nodes,
                models,
                children[i],
                Some(parent),
                IVec3 { x: 0, y: 0, z: 0 },
                &none,
                fuel,
            ) {
                return false;
            }
            i += 1;
        }
        true
    }

    /// The scene that a file stands for, where it stands for one.
    pub fn traverse(nodes: &Vec<SceneNode>, models: &Vec<FileModel>) -> (r: Option<VoxScene>)
        ensures
            ({
                let expected = scene_entities(nodes_view(nodes@), models_view(models@));
                &&& r is Some <==> expected is Some
                &&& r matches Some(scene) ==> Some(scene.view_entities()) == expected
            }),
            nodes@.len() == 0 ==> (r is Some <==> models@.len() == 1),
            nodes@.len() == 0 && r is Some ==> {
                let entities = r->0.entities@;
                &&& entities.len() == (if models@[0].voxels@.len() == 0 {
                    0int
                } else {
                    1
                })
                &&& entities.len() == 1 ==> {
                    &&& entities[0].parent is None
                    &&& entities[0].kind == EntityKind::Unplaced(0)
                    &&& entities[0].size == models@[0].size
                }
            },
    {
        let mut scene: VoxScene = VoxScene { entities: Vec::new() };
        assert(scene.view_entities() =~= Seq::empty());
        if nodes.len() == 0 {
            if models.len() != 1 {
                return None;
            }
            if models[0].voxels.len() == 0 {
                return Some(scene);
            }
            scene.add(
                SceneEntity {
                    parent: None,
                    kind: EntityKind::Unplaced(0),
                    translation: IVec3 { x: 0, y: 0, z: 0 },
                    rotation: None,
                    size: models[0].size,
                },
            );
            proof {
                assert(scene.view_entities() =~= scene_entities(
                    nodes_view(nodes@),
                    models_view(models@),
                )->0);
                assert(scene.view_entities()[0] == scene.entities@[0]@);
            }
            return Some(scene);
        }
        let none: Option<String> = None;
        if scene.traverse_recursive(
            nodes,
            models,
            0,
            None,
            IVec3 { x: 0, y: 0, z: 0 },
            &none,
            nodes.len(),
        ) {
            Some(scene)
        } else {
            None
        }
    }
}

/// Allowing deeper nesting changes nothing for nodes that are not nested too deeply.
pub proof fn law_nesting_bound_is_no_matter(
    nodes: Seq<NodeView>,
    models: Seq<ModelView>,
    node: u32,
    parent: Option<usize>,
    translation: IVec3,
    rotation: Option<Seq<char>>,
    fuel: nat,
    more: nat,
    entities: Seq<EntityView>,
)
    requires
        fuel <= more,
        with_node(nodes, models, node, parent, translation, rotation, fuel, entities) is Some,
    ensures
        with_node(nodes, models, node, parent, translation, rotation, more, entities) == with_node(
            nodes,
            models,
            node,
            parent,
            translation,
            rotation,
            fuel,
            entities,
        ),
    decreases fuel, 0nat,
{
    match nodes[node as int] {
        NodeView::Transform { frames, child } => {
            let translation = moved(translation, frames[0].translation)->0;
            law_nesting_bound_is_no_matter(
                nodes,
                models,
                child,
                parent,
                translation,
                frames[0].rotation,
                (fuel - 1) as nat,
                (more - 1) as nat,
                entities,
            );
        },
        NodeView::Group { children } => {
            lemma_children_nesting(
                nodes,
                models,
                children,
                0,
                entities.len() as usize,
                (fuel - 1) as nat,
                (more - 1) as nat,
                entities.push(
                    EntityView {
                        parent,
                        kind: EntityKind::Group,
                        translation,
                        rotation,
                        size: UVec3 { x: 0, y: 0, z: 0 },
                    },
                ),
            );
        },
        NodeView::Shape { models: ids } => {},
    }
}

proof fn lemma_children_nesting(
    nodes: Seq<NodeView>,
    models: Seq<ModelView>,
    children: Seq<u32>,
    i: nat,
    parent: usize,
    fuel: nat,
    more: nat,
    entities: Seq<EntityView>,
)
    requires
        fuel <= more,
        with_children(nodes, models, children, i, parent, fuel, entities) is Some,
    ensures
        with_children(nodes, models, children, i, parent, more, entities) == with_children(
            nodes,
            models,
            children,
            i,
            parent,
            fuel,
            entities,
        ),
    decreases
            fuel,
            (if i < children.len() {
                children.len() - i + 1
            } else {
                1
            }) as nat,
{
    if i < children.len() {
        law_nesting_bound_is_no_matter(
            nodes,
            models,
            children[i as int],
            Some(parent),
            zero(),
            None,
            fuel,
            more,
            entities,
        );
        let next = with_node(
            nodes,
            models,
            children[i as int],
            Some(parent),
            zero(),
            None,
            fuel,
            entities,
        )->0;
        lemma_children_nesting(nodes, models, children, i + 1, parent, fuel, more, next);
    }
}

/// Whether entities are in order: each that is held by another comes after it, and only groups
/// hold others. What is shown is a model of the file that has voxels.
pub open spec fn in_order(entities: Seq<EntityView>, models: Seq<ModelView>) -> bool {
    forall|e: int|
        0 <= e < entities.len() ==> {
            &&& (#[trigger] entities[e]).parent matches Some(parent) ==> parent < e
                && entities[parent as int].kind == EntityKind::Group
            &&& entities[e].kind matches EntityKind::Instance(id) ==> id < models.len()
                && models[id as int].voxels.len() > 0 && entities[e].size == models[id as int].size
        }
}

/// The entities of a scene are in order.
pub proof fn law_entities_in_order(
    nodes: Seq<NodeView>,
    models: Seq<ModelView>,
    node: u32,
    parent: Option<usize>,
    translation: IVec3,
    rotation: Option<Seq<char>>,
    fuel: nat,
    entities: Seq<EntityView>,
)
    requires
        in_order(entities, models),
        parent matches Some(p) ==> p < entities.len() && entities[p as int].kind
            == EntityKind::Group,
        with_node(nodes, models, node, parent, translation, rotation, fuel, entities) matches Some(
            after,
        ) && after.len() <= usize::MAX,
    ensures
        ({
            let after = with_node(
                nodes,
                models,
                node,
                parent,
                translation,
                rotation,
                fuel,
                entities,
            )->0;
            &&& in_order(after, models)
            &&& entities.len() <= after.len()
            &&& after.take(entities.len() as int) == entities
        }),
    decreases fuel, 0nat,
{
    match nodes[node as int] {
        NodeView::Transform { frames, child } => {
            let translation = moved(translation, frames[0].translation)->0;
            law_entities_in_order(
                nodes,
                models,
                child,
                parent,
                translation,
                frames[0].rotation,
                (fuel - 1) as nat,
                entities,
            );
        },
        NodeView::Group { children } => {
            let group = EntityView {
                parent,
                kind: EntityKind::Group,
                translation,
                rotation,
                size: UVec3 { x: 0, y: 0, z: 0 },
            };
            let after = with_node(
                nodes,
                models,
                node,
                parent,
                translation,
                rotation,
                fuel,
                entities,
            )->0;
            lemma_entities_grow_children(
                nodes,
                models,
                children,
                0,
                entities.len() as usize,
                (fuel - 1) as nat,
                entities.push(group),
            );
            assert(entities.len() < usize::MAX);
            lemma_children_in_order(
                nodes,
                models,
                children,
                0,
                entities.len() as usize,
                (fuel - 1) as nat,
                entities.push(group),
            );
            assert(after.take(entities.len() as int) =~= entities) by {
                assert(after.take(entities.push(group).len() as int) == entities.push(group));
                assert forall|i: int| 0 <= i < entities.len() implies after[i] == entities[i] by {
                    assert(after.take(entities.push(group).len() as int)[i] == entities.push(
                        group,
                    )[i]);
                }
            }
        },
        NodeView::Shape { models: ids } => {
            let after = with_node(
                nodes,
                models,
                node,
                parent,
                translation,
                rotation,
                fuel,
                entities,
            )->0;
            assert(after.take(entities.len() as int) =~= entities);
        },
    }
}

proof fn lemma_children_in_order(
    nodes: Seq<NodeView>,
    models: Seq<ModelView>,
    children: Seq<u32>,
    i: nat,
    parent: usize,
    fuel: nat,
    entities: Seq<EntityView>,
)
    requires
        in_order(entities, models),
        parent < entities.len(),
        entities[parent as int].kind == EntityKind::Group,
        with_children(nodes, models, children, i, parent, fuel, entities) matches Some(after)
            && after.len() <= usize::MAX,
    ensures
        ({
            let after = with_children(nodes, models, children, i, parent, fuel, entities)->0;
            &&& in_order(after, models)
            &&& entities.len() <= after.len()
            &&& after.take(entities.len() as int) == entities
        }),
    decreases
            fuel,
            (if i < children.len() {
                children.len() - i + 1
            } else {
                1
            }) as nat,
{
    let after = with_children(nodes, models, children, i, parent, fuel, entities)->0;
    if i < children.len() {
        let next = with_node(
            nodes,
            models,
            children[i as int],
            Some(parent),
            zero(),
            None,
            fuel,
            entities,
        )->0;
        lemma_entities_grow_children(nodes, models, children, i + 1, parent, fuel, next);
        law_entities_in_order(
            nodes,
            models,
            children[i as int],
            Some(parent),
            zero(),
            None,
            fuel,
            entities,
        );
        assert(next[parent as int] == next.take(entities.len() as int)[parent as int]);
        lemma_children_in_order(nodes, models, children, i + 1, parent, fuel, next);
        assert(after.take(entities.len() as int) =~= entities) by {
            assert forall|k: int| 0 <= k < entities.len() implies after[k] == entities[k] by {
                assert(after.take(next.len() as int)[k] == next[k]);
                assert(next.take(entities.len() as int)[k] == entities[k]);
            }
        }
    } else {
        assert(after.take(entities.len() as int) =~= entities);
    }
}

pub proof fn lemma_entities_grow_children(
    nodes: Seq<NodeView>,
    models: Seq<ModelView>,
    children: Seq<u32>,
    i: nat,
    parent: usize,
    fuel: nat,
    entities: Seq<EntityView>,
)
    requires
        with_children(nodes, models, children, i, parent, fuel, entities) is Some,
    ensures
        entities.len() <= with_children(nodes, models, children, i, parent, fuel, entities)->0.len(),
    decreases
            fuel,
            (if i < children.len() {
                children.len() - i + 1
            } else {
                1
            }) as nat,
{
    if i < children.len() {
        lemma_entities_grow(
            nodes,
            models,
            children[i as int],
            Some(parent),
            zero(),
            None,
            fuel,
            entities,
        );
        let next = with_node(
            nodes,
            models,
            children[i as int],
            Some(parent),
            zero(),
            None,
            fuel,
            entities,
        )->0;
        lemma_entities_grow_children(nodes, models, children, i + 1, parent, fuel, next);
    }
}

proof fn lemma_entities_grow(
    nodes: Seq<NodeView>,
    models: Seq<ModelView>,
    node: u32,
    parent: Option<usize>,
    translation: IVec3,
    rotation: Option<Seq<char>>,
    fuel: nat,
    entities: Seq<EntityView>,
)
    requires
        with_node(nodes, models, node, parent, translation, rotation, fuel, entities) is Some,
    ensures
        entities.len() <= with_node(
            nodes,
            models,
            node,
            parent,
            translation,
            rotation,
            fuel,
            entities,
        )->0.len(),
    decreases fuel, 0nat,
{
    match nodes[node as int] {
        NodeView::Transform { frames, child } => {
            lemma_entities_grow(
                nodes,
                models,
                child,
                parent,
                moved(translation, frames[0].translation)->0,
                frames[0].rotation,
                (fuel - 1) as nat,
                entities,
            );
        },
        NodeView::Group { children } => {
            lemma_entities_grow_children(
                nodes,
                models,
                children,
                0,
                entities.len() as usize,
                (fuel - 1) as nat,
                entities.push(
                    EntityView {
                        parent,
                        kind: EntityKind::Group,
                        translation,
                        rotation,
                        size: UVec3 { x: 0, y: 0, z: 0 },
                    },
                ),
            );
        },
        NodeView::Shape { models: ids } => {},
    }
}

/// What is told of a frame, of a node and of an entity is all that they hold, in order.
pub proof fn law_scene_parts(frame: Frame, node: SceneNode, entity: SceneEntity)
    ensures
        frame@.translation == frame.translation,
        frame@.rotation is Some <==> frame.rotation is Some,
        frame.rotation matches Some(text) ==> frame@.rotation == Some(text@),
        entity@.parent == entity.parent,
        entity@.kind == entity.kind,
        entity@.translation == entity.translation,
        entity@.rotation is Some <==> entity.rotation is Some,
        entity.rotation matches Some(text) ==> entity@.rotation == Some(text@),
        entity@.size == entity.size,
        match (node, node@) {
            (
                SceneNode::Transform { frames, child },
                NodeView::Transform { frames: told, child: same },
            ) => child == same && told.len() == frames@.len() && forall|i: int|
                0 <= i < frames@.len() ==> #[trigger] told[i] == frames@[i]@,
            (SceneNode::Group { children }, NodeView::Group { children: told }) => told
                == children@,
            (SceneNode::Shape { models }, NodeView::Shape { models: told }) => told == models@,
            _ => false,
        },
{
}

/// Nodes, models and entities are told one by one, in order.
pub proof fn law_scene_lists(
    nodes: Seq<SceneNode>,
    models: Seq<FileModel>,
    entities: Seq<SceneEntity>,
    i: int,
)
    ensures
        nodes_view(nodes).len() == nodes.len(),
        models_view(models).len() == models.len(),
        entities_view(entities).len() == entities.len(),
        0 <= i < nodes.len() ==> nodes_view(nodes)[i] == nodes[i]@,
        0 <= i < models.len() ==> models_view(models)[i] == models[i]@,
        0 <= i < entities.len() ==> entities_view(entities)[i] == entities[i]@,
{
}

} // verus!
