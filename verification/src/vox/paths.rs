//! How the entities of a scene come about, told by the paths of its scene graph.

use super::file::ModelView;
use super::scene;
use super::scene::EntityKind;
use super::scene::EntityView;
use super::scene::NodeView;
use crate::math::IVec3;
use crate::math::UVec3;
use vstd::prelude::*;

verus! {

/// Where an entity comes from: the nodes on the path to it, its own last, and the place of the
/// first of them among the children of the node of the entity that holds it.
pub struct Way {
    pub path: Seq<u32>,
    pub slot: nat,
}

/// Whether a node of a path is a transform with one frame that holds the next node of the path.
pub open spec fn leads_on(nodes: Seq<NodeView>, path: Seq<u32>, k: int) -> bool {
    &&& path[k] < nodes.len()
    &&& nodes[path[k] as int] matches NodeView::Transform { frames, child } && frames.len() == 1
        && child == path[k + 1]
}

/// Whether a path leads from transform to transform, and then to its last node.
pub open spec fn is_path(nodes: Seq<NodeView>, path: Seq<u32>) -> bool {
    &&& path.len() > 0
    &&& path.last() < nodes.len()
    &&& forall|k: int| 0 <= k < path.len() - 1 ==> #[trigger] leads_on(nodes, path, k)
}

/// Where the first `n` transforms of a path stand, taken together.
pub open spec fn path_sum(nodes: Seq<NodeView>, path: Seq<u32>, n: nat) -> (int, int, int)
    decreases n,
{
    if n == 0 {
        (0, 0, 0)
    } else {
        let before = path_sum(nodes, path, (n - 1) as nat);
        let step = nodes[path[n - 1] as int]->frames[0].translation;
        (before.0 + step.x, before.1 + step.y, before.2 + step.z)
    }
}

/// The text of the last transform of a path, where it has one.
pub open spec fn path_turn(nodes: Seq<NodeView>, path: Seq<u32>) -> Option<Seq<char>> {
    if path.len() <= 1 {
        None
    } else {
        nodes[path[path.len() - 2] as int]->frames[0].rotation
    }
}

/// Whether a node stands for an entity: it is a group, or shows a model that has voxels.
pub open spec fn stands(nodes: Seq<NodeView>, models: Seq<ModelView>, node: u32) -> bool {
    match nodes[node as int] {
        NodeView::Transform { .. } => false,
        NodeView::Group { .. } => true,
        NodeView::Shape { models: ids } => models[ids[0] as int].voxels.len() > 0,
    }
}

/// Whether a path starts where it should: at the first node of the graph for an entity that
/// nothing holds, and at a child of the group that holds the entity else.
pub open spec fn starts(
    nodes: Seq<NodeView>,
    entities: Seq<EntityView>,
    ways: Seq<Way>,
    parent: Option<usize>,
    slot: nat,
    first: u32,
) -> bool {
    match parent {
        None => slot == 0 && first == 0,
        Some(p) => {
            &&& p < entities.len()
            &&& entities[p as int].kind == EntityKind::Group
            &&& nodes[ways[p as int].path.last() as int] matches NodeView::Group { children } && slot
                < children.len() && children[slot as int] == first
        },
    }
}

/// Whether an entity is what its path tells. It stands where the transforms of the path take it
/// together, is turned by the last of them alone, and is a group or shows a model as its own node
/// says.
pub open spec fn told(
    nodes: Seq<NodeView>,
    models: Seq<ModelView>,
    entities: Seq<EntityView>,
    ways: Seq<Way>,
    e: int,
) -> bool {
    let path = ways[e].path;
    let sum = path_sum(nodes, path, (path.len() - 1) as nat);
    &&& is_path(nodes, path)
    &&& entities[e].parent matches Some(p) ==> p < e
    &&& starts(nodes, entities, ways, entities[e].parent, ways[e].slot, path[0])
    &&& entities[e].translation.x == sum.0
    &&& entities[e].translation.y == sum.1
    &&& entities[e].translation.z == sum.2
    &&& entities[e].rotation == path_turn(nodes, path)
    &&& match nodes[path.last() as int] {
        NodeView::Transform { .. } => false,
        NodeView::Group { .. } => entities[e].kind == EntityKind::Group && entities[e].size
            == (UVec3 { x: 0, y: 0, z: 0 }),
        NodeView::Shape { models: ids } => {
            &&& ids.len() == 1
            &&& ids[0] < models.len()
            &&& models[ids[0] as int].voxels.len() > 0
            &&& entities[e].kind == EntityKind::Instance(ids[0])
            &&& entities[e].size == models[ids[0] as int].size
        },
    }
}

/// Whether every entity is what its path tells, and those that one entity holds come in the order
/// of the children of its node.
pub open spec fn all_told(
    nodes: Seq<NodeView>,
    models: Seq<ModelView>,
    entities: Seq<EntityView>,
    ways: Seq<Way>,
) -> bool {
    &&& ways.len() == entities.len()
    &&& forall|e: int| 0 <= e < entities.len() ==> #[trigger] told(nodes, models, entities, ways, e)
    &&& forall|e: int, f: int|
        0 <= e < f < entities.len() && entities[e].parent == entities[f].parent ==> (
        #[trigger] ways[e]).slot < (#[trigger] ways[f]).slot
}

/// Whether an entity is held by another, and comes from the given child of its node.
pub open spec fn comes_from(
    entities: Seq<EntityView>,
    ways: Seq<Way>,
    parent: Option<usize>,
    slot: nat,
    e: int,
) -> bool {
    &&& 0 <= e < entities.len()
    &&& entities[e].parent == parent
    &&& ways[e].slot == slot
}

/// Whether there is an entity for a child wherever a path leads from it to a node that stands for
/// one.
pub open spec fn filled(
    nodes: Seq<NodeView>,
    models: Seq<ModelView>,
    entities: Seq<EntityView>,
    ways: Seq<Way>,
    parent: Option<usize>,
    slot: nat,
    first: u32,
) -> bool {
    forall|path: Seq<u32>|
        #[trigger] is_path(nodes, path) && path[0] == first && stands(nodes, models, path.last())
            ==> exists|e: int| comes_from(entities, ways, parent, slot, e)
}

/// Whether there is an entity for every child of a group that needs one.
pub open spec fn group_filled(
    nodes: Seq<NodeView>,
    models: Seq<ModelView>,
    entities: Seq<EntityView>,
    ways: Seq<Way>,
    p: int,
) -> bool {
    nodes[ways[p].path.last() as int] matches NodeView::Group { children } ==> forall|s: int|
        0 <= s < children.len() ==> filled(
            nodes,
            models,
            entities,
            ways,
            Some(p as usize),
            s as nat,
            #[trigger] children[s],
        )
}

/// Whether entities are followed by others.
pub open spec fn extends(
    entities: Seq<EntityView>,
    ways: Seq<Way>,
    after: Seq<EntityView>,
    after_ways: Seq<Way>,
) -> bool {
    &&& entities.len() <= after.len()
    &&& entities.len() == ways.len()
    &&& after.len() == after_ways.len()
    &&& forall|i: int| 0 <= i < entities.len() ==> #[trigger] after[i] == entities[i]
    &&& forall|i: int| 0 <= i < ways.len() ==> #[trigger] after_ways[i] == ways[i]
}

/// The entities of a scene with a scene graph are just those that its paths tell. Each stands for
/// the last node of a path of transforms that starts at a child of the group that holds it, or at
/// the first node of the graph; it stands where these transforms take it together, is turned by
/// the last of them, and there is exactly one wherever a path leads to a group or to a model that
/// has voxels.
pub proof fn law_entities_follow_paths(nodes: Seq<NodeView>, models: Seq<ModelView>) -> (ways: Seq<
    Way,
>)
    requires
        nodes.len() > 0,
        scene::scene_entities(nodes, models) matches Some(entities) && entities.len()
            <= usize::MAX,
    ensures
        ({
            let entities = scene::scene_entities(nodes, models)->0;
            &&& all_told(nodes, models, entities, ways)
            &&& filled(nodes, models, entities, ways, None, 0, 0)
            &&& forall|p: int|
                0 <= p < entities.len() ==> #[trigger] group_filled(
                    nodes,
                    models,
                    entities,
                    ways,
                    p,
                )
        }),
{
    let zero = IVec3 { x: 0, y: 0, z: 0 };
    let ways = lemma_node_told(
        nodes,
        models,
        0,
        None,
        zero,
        None,
        nodes.len(),
        Seq::empty(),
        Seq::empty(),
        0,
        seq![0u32],
    );
    let entities = scene::scene_entities(nodes, models)->0;
    assert(filled(nodes, models, entities, ways, None, 0, 0));
    ways
}

/// What follows does not undo that there is an entity for a child.
proof fn lemma_filled_stays(
    nodes: Seq<NodeView>,
    models: Seq<ModelView>,
    entities: Seq<EntityView>,
    ways: Seq<Way>,
    after: Seq<EntityView>,
    after_ways: Seq<Way>,
    parent: Option<usize>,
    slot: nat,
    first: u32,
)
    requires
        extends(entities, ways, after, after_ways),
        filled(nodes, models, entities, ways, parent, slot, first),
    ensures
        filled(nodes, models, after, after_ways, parent, slot, first),
{
    assert forall|path: Seq<u32>|
        #[trigger] is_path(nodes, path) && path[0] == first && stands(
            nodes,
            models,
            path.last(),
        ) implies exists|e: int| comes_from(after, after_ways, parent, slot, e) by {
        let e = choose|e: int| comes_from(entities, ways, parent, slot, e);
        assert(after[e] == entities[e] && after_ways[e] == ways[e]);
        assert(comes_from(after, after_ways, parent, slot, e));
    }
}

proof fn lemma_group_stays(
    nodes: Seq<NodeView>,
    models: Seq<ModelView>,
    entities: Seq<EntityView>,
    ways: Seq<Way>,
    after: Seq<EntityView>,
    after_ways: Seq<Way>,
    p: int,
)
    requires
        extends(entities, ways, after, after_ways),
        0 <= p < entities.len(),
        group_filled(nodes, models, entities, ways, p),
    ensures
        group_filled(nodes, models, after, after_ways, p),
{
    assert(after_ways[p] == ways[p]);
    if let NodeView::Group { children } = nodes[ways[p].path.last() as int] {
        assert forall|s: int| 0 <= s < children.len() implies filled(
            nodes,
            models,
            after,
            after_ways,
            Some(p as usize),
            s as nat,
            #[trigger] children[s],
        ) by {
            lemma_filled_stays(
                nodes,
                models,
                entities,
                ways,
                after,
                after_ways,
                Some(p as usize),
                s as nat,
                children[s],
            );
        }
    }
}

/// What one more entity does.
proof fn lemma_one_more(
    nodes: Seq<NodeView>,
    models: Seq<ModelView>,
    entities: Seq<EntityView>,
    ways: Seq<Way>,
    entity: EntityView,
    way: Way,
)
    requires
        all_told(nodes, models, entities, ways),
        forall|e: int|
            0 <= e < entities.len() && entities[e].parent == entity.parent ==> (
            #[trigger] ways[e]).slot < way.slot,
        entity.parent matches Some(p) ==> p < entities.len(),
        told(nodes, models, entities.push(entity), ways.push(way), entities.len() as int),
    ensures
        all_told(nodes, models, entities.push(entity), ways.push(way)),
        extends(entities, ways, entities.push(entity), ways.push(way)),
{
    let after = entities.push(entity);
    let after_ways = ways.push(way);
    assert forall|e: int| 0 <= e < after.len() implies #[trigger] told(
        nodes,
        models,
        after,
        after_ways,
        e,
    ) by {
        if e < entities.len() {
            assert(told(nodes, models, entities, ways, e));
            assert(after[e] == entities[e] && after_ways[e] == ways[e]);
            if let Some(p) = entities[e].parent {
                assert(after[p as int] == entities[p as int] && after_ways[p as int]
                    == ways[p as int]);
            }
        }
    }
}

proof fn lemma_node_told(
    nodes: Seq<NodeView>,
    models: Seq<ModelView>,
    node: u32,
    parent: Option<usize>,
    translation: IVec3,
    rotation: Option<Seq<char>>,
    fuel: nat,
    entities: Seq<EntityView>,
    ways: Seq<Way>,
    slot: nat,
    path: Seq<u32>,
) -> (after_ways: Seq<Way>)
    requires
        scene::with_node(
            nodes,
            models,
            node,
            parent,
            translation,
            rotation,
            fuel,
            entities,
        ) matches Some(after) && after.len() <= usize::MAX,
        all_told(nodes, models, entities, ways),
        path.len() > 0,
        path.last() == node,
        forall|k: int| 0 <= k < path.len() - 1 ==> #[trigger] leads_on(nodes, path, k),
        (translation.x as int, translation.y as int, translation.z as int) == path_sum(
            nodes,
            path,
            (path.len() - 1) as nat,
        ),
        rotation == path_turn(nodes, path),
        starts(nodes, entities, ways, parent, slot, path[0]),
        forall|e: int|
            0 <= e < entities.len() && entities[e].parent == parent ==> (#[trigger] ways[e]).slot
                < slot,
    ensures
        ({
            let after = scene::with_node(
                nodes,
                models,
                node,
                parent,
                translation,
                rotation,
                fuel,
                entities,
            )->0;
            &&& all_told(nodes, models, after, after_ways)
            &&& extends(entities, ways, after, after_ways)
            &&& filled(nodes, models, after, after_ways, parent, slot, node)
            &&& forall|e: int|
                entities.len() <= e < after.len() ==> {
                    ||| (#[trigger] after[e]).parent == parent && after_ways[e].slot == slot
                    ||| after[e].parent matches Some(p) && entities.len() <= p
                }
            &&& forall|p: int|
                entities.len() <= p < after.len() ==> #[trigger] group_filled(
                    nodes,
                    models,
                    after,
                    after_ways,
                    p,
                )
        }),
    decreases fuel, 0nat,
{
    let after = scene::with_node(
        nodes,
        models,
        node,
        parent,
        translation,
        rotation,
        fuel,
        entities,
    )->0;
    match nodes[node as int] {
        NodeView::Transform { frames, child } => {
            let moved = scene::moved(translation, frames[0].translation)->0;
            let longer = path.push(child);
            lemma_sum_of_start(nodes, path, longer, (path.len() - 1) as nat);
            assert forall|k: int| 0 <= k < longer.len() - 1 implies #[trigger] leads_on(
                nodes,
                longer,
                k,
            ) by {
                if k < path.len() - 1 {
                    assert(leads_on(nodes, path, k));
                }
            }
            let after_ways = lemma_node_told(
                nodes,
                models,
                child,
                parent,
                moved,
                frames[0].rotation,
                (fuel - 1) as nat,
                entities,
                ways,
                slot,
                longer,
            );
            assert forall|way: Seq<u32>|
                #[trigger] is_path(nodes, way) && way[0] == node && stands(
                    nodes,
                    models,
                    way.last(),
                ) implies exists|e: int| comes_from(after, after_ways, parent, slot, e) by {
                assert(way.len() > 1);
                assert(leads_on(nodes, way, 0));
                let rest = way.skip(1);
                assert forall|k: int| 0 <= k < rest.len() - 1 implies #[trigger] leads_on(
                    nodes,
                    rest,
                    k,
                ) by {
                    assert(leads_on(nodes, way, k + 1));
                }
                assert(rest.last() == way.last());
                assert(is_path(nodes, rest) && rest[0] == child);
            }
            after_ways
        },
        NodeView::Group { children } => {
            let group = EntityView {
                parent,
                kind: EntityKind::Group,
                translation,
                rotation,
                size: UVec3 { x: 0, y: 0, z: 0 },
            };
            let more = entities.push(group);
            let more_ways = ways.push(Way { path, slot });
            scene::lemma_entities_grow_children(
                nodes,
                models,
                children,
                0,
                entities.len() as usize,
                (fuel - 1) as nat,
                more,
            );
            if let Some(p) = parent {
                assert(more[p as int] == entities[p as int] && more_ways[p as int]
                    == ways[p as int]);
            }
            lemma_one_more(nodes, models, entities, ways, group, Way { path, slot });
            let own = entities.len() as usize;
            assert forall|e: int|
                0 <= e < more.len() && more[e].parent == Some(own) implies (
            #[trigger] more_ways[e]).slot < 0 by {
                assert(told(nodes, models, more, more_ways, e));
            }
            let after_ways = lemma_children_told(
                nodes,
                models,
                children,
                0,
                own,
                (fuel - 1) as nat,
                more,
                more_ways,
            );
            assert(after[own as int] == more[own as int] && after_ways[own as int]
                == more_ways[own as int]);
            assert(comes_from(after, after_ways, parent, slot, own as int));
            assert forall|p: int| entities.len() <= p < after.len() implies #[trigger] group_filled(
                nodes,
                models,
                after,
                after_ways,
                p,
            ) by {}
            assert forall|i: int| 0 <= i < entities.len() implies #[trigger] after[i]
                == entities[i] by {
                assert(after[i] == more[i]);
            }
            assert forall|i: int| 0 <= i < ways.len() implies #[trigger] after_ways[i]
                == ways[i] by {
                assert(after_ways[i] == more_ways[i]);
            }
            after_ways
        },
        NodeView::Shape { models: ids } => {
            let after_ways = if after == entities {
                ways
            } else {
                ways.push(Way { path, slot })
            };
            if models[ids[0] as int].voxels.len() > 0 {
                let entity = after.last();
                assert(after == entities.push(entity));
                assert(after.len() != entities.len());
                if let Some(p) = parent {
                    assert(after[p as int] == entities[p as int] && after_ways[p as int]
                        == ways[p as int]);
                }
                lemma_one_more(nodes, models, entities, ways, entity, Way { path, slot });
                assert(comes_from(after, after_ways, parent, slot, entities.len() as int));
            }
            assert forall|way: Seq<u32>|
                #[trigger] is_path(nodes, way) && way[0] == node && stands(
                    nodes,
                    models,
                    way.last(),
                ) implies exists|e: int| comes_from(after, after_ways, parent, slot, e) by {
                if way.len() > 1 {
                    assert(leads_on(nodes, way, 0));
                }
            }
            after_ways
        },
    }
}

proof fn lemma_children_told(
    nodes: Seq<NodeView>,
    models: Seq<ModelView>,
    children: Seq<u32>,
    i: nat,
    parent: usize,
    fuel: nat,
    entities: Seq<EntityView>,
    ways: Seq<Way>,
) -> (after_ways: Seq<Way>)
    requires
        scene::with_children(nodes, models, children, i, parent, fuel, entities) matches Some(after)
            && after.len() <= usize::MAX,
        all_told(nodes, models, entities, ways),
        parent < entities.len(),
        entities[parent as int].kind == EntityKind::Group,
        nodes[ways[parent as int].path.last() as int] == (NodeView::Group { children }),
        forall|e: int|
            0 <= e < entities.len() && entities[e].parent == Some(parent) ==> (
            #[trigger] ways[e]).slot < i,
    ensures
        ({
            let after = scene::with_children(
                nodes,
                models,
                children,
                i,
                parent,
                fuel,
                entities,
            )->0;
            &&& all_told(nodes, models, after, after_ways)
            &&& extends(entities, ways, after, after_ways)
            &&& forall|s: int|
                i <= s < children.len() ==> filled(
                    nodes,
                    models,
                    after,
                    after_ways,
                    Some(parent),
                    s as nat,
                    #[trigger] children[s],
                )
            &&& forall|e: int|
                entities.len() <= e < after.len() ==> {
                    (#[trigger] after[e]).parent matches Some(p) && (p == parent || entities.len()
                        <= p)
                }
            &&& forall|p: int|
                entities.len() <= p < after.len() ==> #[trigger] group_filled(
                    nodes,
                    models,
                    after,
                    after_ways,
                    p,
                )
        }),
    decreases
            fuel,
            (if i < children.len() {
                children.len() - i + 1
            } else {
                1
            }) as nat,
{
    let after = scene::with_children(nodes, models, children, i, parent, fuel, entities)->0;
    if i >= children.len() {
        ways
    } else {
        let first = children[i as int];
        let next = scene::with_node(
            nodes,
            models,
            first,
            Some(parent),
            scene::zero(),
            None,
            fuel,
            entities,
        )->0;
        scene::lemma_entities_grow_children(
            nodes,
            models,
            children,
            i + 1,
            parent,
            fuel,
            next,
        );
        let next_ways = lemma_node_told(
            nodes,
            models,
            first,
            Some(parent),
            scene::zero(),
            None,
            fuel,
            entities,
            ways,
            i,
            seq![first],
        );
        assert(next[parent as int] == entities[parent as int] && next_ways[parent as int]
            == ways[parent as int]);
        assert forall|e: int|
            0 <= e < next.len() && next[e].parent == Some(parent) implies (
        #[trigger] next_ways[e]).slot < i + 1 by {
            if e < entities.len() {
                assert(next[e] == entities[e] && next_ways[e] == ways[e]);
            }
        }
        let after_ways = lemma_children_told(
            nodes,
            models,
            children,
            i + 1,
            parent,
            fuel,
            next,
            next_ways,
        );
        assert forall|s: int| i <= s < children.len() implies filled(
            nodes,
            models,
            after,
            after_ways,
            Some(parent),
            s as nat,
            #[trigger] children[s],
        ) by {
            if s == i {
                lemma_filled_stays(
                    nodes,
                    models,
                    next,
                    next_ways,
                    after,
                    after_ways,
                    Some(parent),
                    i,
                    first,
                );
            }
        }
        assert forall|p: int| entities.len() <= p < after.len() implies #[trigger] group_filled(
            nodes,
            models,
            after,
            after_ways,
            p,
        ) by {
            if p < next.len() {
                lemma_group_stays(nodes, models, next, next_ways, after, after_ways, p);
            }
        }
        assert forall|e: int| entities.len() <= e < after.len() implies {
            (#[trigger] after[e]).parent matches Some(p) && (p == parent || entities.len() <= p)
        } by {
            if e < next.len() {
                assert(after[e] == next[e]);
            }
        }
        assert forall|k: int| 0 <= k < entities.len() implies #[trigger] after[k] == entities[k] by {
            assert(after[k] == next[k]);
        }
        assert forall|k: int| 0 <= k < ways.len() implies #[trigger] after_ways[k] == ways[k] by {
            assert(after_ways[k] == next_ways[k]);
        }
        after_ways
    }
}

/// Where the first transforms of a path stand depends on them alone.
proof fn lemma_sum_of_start(nodes: Seq<NodeView>, path: Seq<u32>, longer: Seq<u32>, n: nat)
    requires
        n <= path.len() <= longer.len(),
        forall|k: int| 0 <= k < path.len() ==> #[trigger] longer[k] == path[k],
    ensures
        path_sum(nodes, longer, n) == path_sum(nodes, path, n),
    decreases n,
{
    if n > 0 {
        lemma_sum_of_start(nodes, path, longer, (n - 1) as nat);
    }
}

/// Whether a node holds another: a transform holds its child, and a group its children.
pub open spec fn holds(nodes: Seq<NodeView>, trail: Seq<u32>, k: int) -> bool {
    &&& trail[k] < nodes.len()
    &&& match nodes[trail[k] as int] {
        NodeView::Transform { frames, child } => child == trail[k + 1],
        NodeView::Group { children } => children.contains(trail[k + 1]),
        NodeView::Shape { .. } => false,
    }
}

/// Where the transforms among the first `n` nodes of a trail stand that come after its last group,
/// taken together.
pub open spec fn trail_sum(nodes: Seq<NodeView>, trail: Seq<u32>, n: nat) -> (int, int, int)
    decreases n,
{
    if n == 0 {
        (0, 0, 0)
    } else {
        match nodes[trail[n - 1] as int] {
            NodeView::Transform { frames, .. } => {
                let before = trail_sum(nodes, trail, (n - 1) as nat);
                let step = frames[0].translation;
                (before.0 + step.x, before.1 + step.y, before.2 + step.z)
            },
            _ => (0, 0, 0),
        }
    }
}

/// Whether nodes hold one another, from the first node of the graph on, and the last of them cannot
/// be shown: it does not exist, it is a transform without exactly one frame or one that takes what
/// it holds too far, it is a shape without exactly one model that exists, or there are more nodes
/// on the way to it than in the graph.
pub open spec fn leads_to_fault(
    nodes: Seq<NodeView>,
    models: Seq<ModelView>,
    trail: Seq<u32>,
) -> bool {
    let sum = trail_sum(nodes, trail, trail.len());
    &&& trail.len() > 0
    &&& trail[0] == 0
    &&& forall|k: int| 0 <= k < trail.len() - 1 ==> #[trigger] holds(nodes, trail, k)
    &&& {
        ||| trail.len() > nodes.len()
        ||| trail.last() >= nodes.len()
        ||| match nodes[trail.last() as int] {
            NodeView::Transform { frames, .. } => {
                ||| frames.len() != 1
                ||| !(i32::MIN <= sum.0 <= i32::MAX)
                ||| !(i32::MIN <= sum.1 <= i32::MAX)
                ||| !(i32::MIN <= sum.2 <= i32::MAX)
            },
            NodeView::Group { .. } => false,
            NodeView::Shape { models: ids } => ids.len() != 1 || ids[0] >= models.len(),
        }
    }
}

/// There is a scene for a scene graph just where no nodes that hold one another lead to one that
/// cannot be shown.
pub proof fn law_scene_unless_fault(nodes: Seq<NodeView>, models: Seq<ModelView>)
    requires
        nodes.len() > 0,
    ensures
        scene::scene_entities(nodes, models) is None <==> exists|trail: Seq<u32>|
            leads_to_fault(nodes, models, trail),
{
    let zero = IVec3 { x: 0, y: 0, z: 0 };
    if scene::scene_entities(nodes, models) is None {
        let trail = lemma_fault_of_node(
            nodes,
            models,
            0,
            None,
            zero,
            None,
            nodes.len(),
            Seq::empty(),
            seq![0u32],
        );
        assert(leads_to_fault(nodes, models, trail));
    } else if exists|trail: Seq<u32>| leads_to_fault(nodes, models, trail) {
        let trail = choose|trail: Seq<u32>| leads_to_fault(nodes, models, trail);
        lemma_no_fault(nodes, models, None, zero, None, nodes.len(), Seq::empty(), trail, 0);
    }
}

/// Whether nodes lead to one of which it is told where the transforms above it stand, and how many
/// nodes may still be nested below.
spec fn on_trail(
    nodes: Seq<NodeView>,
    trail: Seq<u32>,
    translation: IVec3,
    fuel: nat,
    at: int,
) -> bool {
    &&& 0 <= at < trail.len()
    &&& trail[0] == 0
    &&& forall|k: int| 0 <= k < trail.len() - 1 ==> #[trigger] holds(nodes, trail, k)
    &&& fuel + at == nodes.len()
    &&& (translation.x as int, translation.y as int, translation.z as int) == trail_sum(
        nodes,
        trail,
        at as nat,
    )
}

proof fn lemma_trail_sum_of_start(nodes: Seq<NodeView>, trail: Seq<u32>, next: u32, n: nat)
    requires
        n <= trail.len(),
    ensures
        trail_sum(nodes, trail.push(next), n) == trail_sum(nodes, trail, n),
    decreases n,
{
    if n > 0 {
        lemma_trail_sum_of_start(nodes, trail, next, (n - 1) as nat);
    }
}

proof fn lemma_longer_trail(nodes: Seq<NodeView>, trail: Seq<u32>, next: u32)
    requires
        trail.len() > 0,
        trail[0] == 0,
        forall|k: int| 0 <= k < trail.len() - 1 ==> #[trigger] holds(nodes, trail, k),
        holds(nodes, trail.push(next), trail.len() - 1),
    ensures
        trail.push(next)[0] == 0,
        forall|k: int|
            0 <= k < trail.push(next).len() - 1 ==> #[trigger] holds(nodes, trail.push(next), k),
        trail_sum(nodes, trail.push(next), trail.len()) == trail_sum(nodes, trail, trail.len()),
{
    let longer = trail.push(next);
    assert forall|k: int| 0 <= k < longer.len() - 1 implies #[trigger] holds(nodes, longer, k) by {
        if k < trail.len() - 1 {
            assert(holds(nodes, trail, k));
        }
    }
    lemma_trail_sum_of_start(nodes, trail, next, trail.len());
}

proof fn lemma_fault_of_node(
    nodes: Seq<NodeView>,
    models: Seq<ModelView>,
    node: u32,
    parent: Option<usize>,
    translation: IVec3,
    rotation: Option<Seq<char>>,
    fuel: nat,
    entities: Seq<EntityView>,
    trail: Seq<u32>,
) -> (found: Seq<u32>)
    requires
        scene::with_node(
            nodes,
            models,
            node,
            parent,
            translation,
            rotation,
            fuel,
            entities,
        ) is None,
        on_trail(nodes, trail, translation, fuel, trail.len() - 1),
        trail.last() == node,
    ensures
        leads_to_fault(nodes, models, found),
    decreases fuel, 0nat,
{
    if fuel == 0 || node >= nodes.len() {
        trail
    } else {
        match nodes[node as int] {
            NodeView::Transform { frames, child } => {
                if frames.len() != 1 || scene::moved(translation, frames[0].translation) is None {
                    trail
                } else {
                    lemma_longer_trail(nodes, trail, child);
                    lemma_fault_of_node(
                        nodes,
                        models,
                        child,
                        parent,
                        scene::moved(translation, frames[0].translation)->0,
                        frames[0].rotation,
                        (fuel - 1) as nat,
                        entities,
                        trail.push(child),
                    )
                }
            },
            NodeView::Group { children } => lemma_fault_of_children(
                nodes,
                models,
                children,
                0,
                entities.len() as usize,
                (fuel - 1) as nat,
                entities.push(
                    EntityView {
                        parent,
                        kind: EntityKind::Group,
                        translation,
                        rotation,
                        size: UVec3 { x: 0, y: 0, z: 0 },
                    },
                ),
                trail,
            ),
            NodeView::Shape { models: ids } => trail,
        }
    }
}

proof fn lemma_fault_of_children(
    nodes: Seq<NodeView>,
    models: Seq<ModelView>,
    children: Seq<u32>,
    i: nat,
    parent: usize,
    fuel: nat,
    entities: Seq<EntityView>,
    trail: Seq<u32>,
) -> (found: Seq<u32>)
    requires
        scene::with_children(nodes, models, children, i, parent, fuel, entities) is None,
        trail.len() > 0,
        trail[0] == 0,
        forall|k: int| 0 <= k < trail.len() - 1 ==> #[trigger] holds(nodes, trail, k),
        fuel + trail.len() == nodes.len(),
        trail.last() < nodes.len(),
        nodes[trail.last() as int] == (NodeView::Group { children }),
    ensures
        leads_to_fault(nodes, models, found),
    decreases
            fuel,
            (if i < children.len() {
                children.len() - i + 1
            } else {
                1
            }) as nat,
{
    let child = children[i as int];
    let next = scene::with_node(
        nodes,
        models,
        child,
        Some(parent),
        scene::zero(),
        None,
        fuel,
        entities,
    );
    if next is None {
        assert(children.contains(child));
        assert(holds(nodes, trail.push(child), trail.len() - 1));
        lemma_longer_trail(nodes, trail, child);
        lemma_fault_of_node(
            nodes,
            models,
            child,
            Some(parent),
            scene::zero(),
            None,
            fuel,
            entities,
            trail.push(child),
        )
    } else {
        lemma_fault_of_children(
            nodes,
            models,
            children,
            i + 1,
            parent,
            fuel,
            next->0,
            trail,
        )
    }
}

proof fn lemma_no_fault(
    nodes: Seq<NodeView>,
    models: Seq<ModelView>,
    parent: Option<usize>,
    translation: IVec3,
    rotation: Option<Seq<char>>,
    fuel: nat,
    entities: Seq<EntityView>,
    trail: Seq<u32>,
    at: int,
)
    requires
        on_trail(nodes, trail, translation, fuel, at),
        scene::with_node(
            nodes,
            models,
            trail[at],
            parent,
            translation,
            rotation,
            fuel,
            entities,
        ) is Some,
    ensures
        !leads_to_fault(nodes, models, trail),
    decreases fuel,
{
    if at < trail.len() - 1 {
        assert(holds(nodes, trail, at));
        match nodes[trail[at] as int] {
            NodeView::Transform { frames, child } => {
                lemma_no_fault(
                    nodes,
                    models,
                    parent,
                    scene::moved(translation, frames[0].translation)->0,
                    frames[0].rotation,
                    (fuel - 1) as nat,
                    entities,
                    trail,
                    at + 1,
                );
            },
            NodeView::Group { children } => {
                let j = choose|j: int| 0 <= j < children.len() && children[j] == trail[at + 1];
                let own = entities.len() as usize;
                let between = lemma_each_child(
                    nodes,
                    models,
                    children,
                    0,
                    own,
                    (fuel - 1) as nat,
                    entities.push(
                        EntityView {
                            parent,
                            kind: EntityKind::Group,
                            translation,
                            rotation,
                            size: UVec3 { x: 0, y: 0, z: 0 },
                        },
                    ),
                    j as nat,
                );
                lemma_no_fault(
                    nodes,
                    models,
                    Some(own),
                    scene::zero(),
                    None,
                    (fuel - 1) as nat,
                    between,
                    trail,
                    at + 1,
                );
            },
            NodeView::Shape { .. } => {},
        }
    }
}

/// Where all children can be added, each can be added to the entities that come before it.
proof fn lemma_each_child(
    nodes: Seq<NodeView>,
    models: Seq<ModelView>,
    children: Seq<u32>,
    i: nat,
    parent: usize,
    fuel: nat,
    entities: Seq<EntityView>,
    j: nat,
) -> (between: Seq<EntityView>)
    requires
        scene::with_children(nodes, models, children, i, parent, fuel, entities) is Some,
        i <= j < children.len(),
    ensures
        scene::with_node(
            nodes,
            models,
            children[j as int],
            Some(parent),
            scene::zero(),
            None,
            fuel,
            between,
        ) is Some,
    decreases j - i,
{
    if i == j {
        entities
    } else {
        let next = scene::with_node(
            nodes,
            models,
            children[i as int],
            Some(parent),
            scene::zero(),
            None,
            fuel,
            entities,
        )->0;
        lemma_each_child(nodes, models, children, i + 1, parent, fuel, next, j)
    }
}

} // verus!
