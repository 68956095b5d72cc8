//! Which model each primitive of the ray scene stands for.

use super::resources::MAX_RT_NODES;
use super::resources::MAX_RT_PRIMITIVES;
use crate::picking;
use std::collections::HashMap;
use vstd::prelude::*;

verus! {

/// How far up the parents of an entity its model is looked for.
pub const MAX_PARENTS: u32 = 16;

/// The model of the first entity that has one, among an entity and its parents, of which `n` are
/// looked at.
pub open spec fn model_of(
    entity: u64,
    models: Map<u64, u32>,
    parents: Map<u64, u64>,
    n: nat,
) -> Option<u32>
    decreases n,
{
    if n == 0 {
        None
    } else if models.contains_key(entity) {
        Some(models[entity])
    } else if parents.contains_key(entity) {
        model_of(parents[entity], models, parents, (n - 1) as nat)
    } else {
        None
    }
}

/// The model that a collider belongs to: that of its entity, or of the nearest parent that has one.
pub fn resolve_rt_model(
    entity: u64,
    entity_to_rt_model: &HashMap<u64, u32>,
    parents: &HashMap<u64, u64>,
) -> (r: Option<u32>)
    ensures
        r == model_of(entity, entity_to_rt_model@, parents@, MAX_PARENTS as nat),
{
    let mut current: u64 = entity;
    let mut left: u32 = MAX_PARENTS;
    while left > 0
        invariant
            left <= MAX_PARENTS,
            model_of(entity, entity_to_rt_model@, parents@, MAX_PARENTS as nat) == model_of(
                current,
                entity_to_rt_model@,
                parents@,
                left as nat,
            ),
        decreases left,
    {
        if let Some(model) = entity_to_rt_model.get(&current) {
            return Some(*model);
        }
        match parents.get(&current) {
            Some(parent) => {
                current = *parent;
            },
            None => {
                return None;
            },
        }
        left -= 1;
    }
    None
}

/// The number of the model that a primitive stands for, the largest number where it stands for
/// none.
pub open spec fn primitive_model(
    proxy: u32,
    colliders: Seq<Option<u64>>,
    models: Map<u64, u32>,
    parents: Map<u64, u64>,
) -> u32 {
    if proxy < colliders.len() && colliders[proxy as int] is Some {
        match model_of(colliders[proxy as int]->0, models, parents, MAX_PARENTS as nat) {
            Some(model) => model,
            None => u32::MAX,
        }
    } else {
        u32::MAX
    }
}

/// The model that each primitive stands for, given the proxy of each and the collider of each
/// proxy, where it has one. There is no ray scene where it is empty or too large.
pub fn build_rt_scene(
    node_count: usize,
    primitive_indices: &[u32],
    colliders: &[Option<u64>],
    entity_to_rt_model: &HashMap<u64, u32>,
    parents: &HashMap<u64, u64>,
) -> (r: Option<Vec<u32>>)
    ensures
        r is Some <==> 0 < primitive_indices@.len() <= MAX_RT_PRIMITIVES && node_count
            <= MAX_RT_NODES,
        r is Some <==> 0 < primitive_indices@.len() <= 65536 && node_count <= 65536,
        r matches Some(primitive_to_model) ==> {
            &&& primitive_to_model@.len() == primitive_indices@.len()
            &&& forall|i: int|
                0 <= i < primitive_indices@.len() ==> #[trigger] primitive_to_model@[i]
                    == primitive_model(
                    primitive_indices@[i],
                    colliders@,
                    entity_to_rt_model@,
                    parents@,
                )
        },
{
    if primitive_indices.len() == 0 {
        return None;
    }
    if node_count > MAX_RT_NODES || primitive_indices.len() > MAX_RT_PRIMITIVES {
        return None;
    }
    let mut primitive_to_model: Vec<u32> = Vec::new();
    let mut i: usize = 0;
    while i < primitive_indices.len()
        invariant
            i <= primitive_indices@.len(),
            primitive_to_model@.len() == i,
            forall|k: int|
                0 <= k < i ==> #[trigger] primitive_to_model@[k] == primitive_model(
                    primitive_indices@[k],
                    colliders@,
                    entity_to_rt_model@,
                    parents@,
                ),
        decreases primitive_indices@.len() - i,
    {
        let proxy: u32 = primitive_indices[i];
        let collider: Option<u64> = if (proxy as usize) < colliders.len() {
            colliders[proxy as usize]
        } else {
            None
        };
        let model: u32 = match collider {
            Some(entity) => match resolve_rt_model(entity, entity_to_rt_model, parents) {
                Some(model) => model,
                None => u32::MAX,
            },
            None => u32::MAX,
        };
        primitive_to_model.push(model);
        i += 1;
    }
    Some(primitive_to_model)
}

proof fn lemma_ancestor_of_parent(parents: Map<u64, u64>, entity: u64, n: nat)
    requires
        parents.contains_key(entity),
    ensures
        picking::ancestor(parents, entity, n + 1) == picking::ancestor(parents, parents[entity], n),
    decreases n,
{
    assert(picking::ancestor(parents, entity, 0) == Some(entity));
    if n > 0 {
        lemma_ancestor_of_parent(parents, entity, (n - 1) as nat);
        assert(picking::ancestor(parents, entity, n + 1) == match picking::ancestor(
            parents,
            entity,
            n,
        ) {
            Some(below) => if parents.contains_key(below) {
                Some(parents[below])
            } else {
                None
            },
            None => None,
        });
    }
}

proof fn lemma_no_ancestor(parents: Map<u64, u64>, entity: u64, n: nat)
    requires
        !parents.contains_key(entity),
        n > 0,
    ensures
        picking::ancestor(parents, entity, n) is None,
    decreases n,
{
    assert(picking::ancestor(parents, entity, 0) == Some(entity));
    if n > 1 {
        lemma_no_ancestor(parents, entity, (n - 1) as nat);
    }
}

/// Whether the entity `k` steps up, where there is one, has no model.
pub open spec fn none_at(entity: u64, models: Map<u64, u32>, parents: Map<u64, u64>, k: nat) -> bool {
    picking::ancestor(parents, entity, k) matches Some(at) ==> !models.contains_key(at)
}

/// Whether a model is that of the entity `k` steps up, and no entity on the way there has one.
pub open spec fn nearest_at(
    entity: u64,
    models: Map<u64, u32>,
    parents: Map<u64, u64>,
    k: nat,
    model: u32,
) -> bool {
    &&& picking::ancestor(parents, entity, k) matches Some(at) && models.contains_key(at)
        && models[at] == model
    &&& forall|j: nat| j < k ==> #[trigger] none_at(entity, models, parents, j)
}

/// The model of an entity is that of the nearest of the entity and those above it that has one,
/// among the first `n`, and there is none just where none of these has one. Told is how many steps
/// up it is.
pub proof fn law_nearest_model(
    entity: u64,
    models: Map<u64, u32>,
    parents: Map<u64, u64>,
    n: nat,
) -> (k: nat)
    ensures
        model_of(entity, models, parents, n) is Some ==> k < n && nearest_at(
            entity,
            models,
            parents,
            k,
            model_of(entity, models, parents, n)->0,
        ),
        model_of(entity, models, parents, n) is None ==> forall|k: nat|
            k < n ==> #[trigger] none_at(entity, models, parents, k),
    decreases n,
{
    assert(picking::ancestor(parents, entity, 0) == Some(entity));
    if n == 0 || models.contains_key(entity) {
        0
    } else if parents.contains_key(entity) {
        let above = parents[entity];
        let k = law_nearest_model(above, models, parents, (n - 1) as nat);
        assert forall|k: nat| k > 0 implies #[trigger] none_at(entity, models, parents, k)
            == none_at(above, models, parents, (k - 1) as nat) by {
            lemma_ancestor_of_parent(parents, entity, (k - 1) as nat);
        }
        lemma_ancestor_of_parent(parents, entity, k);
        k + 1
    } else {
        assert forall|k: nat| k < n implies #[trigger] none_at(entity, models, parents, k) by {
            if k > 0 {
                lemma_no_ancestor(parents, entity, k);
            }
        }
        0
    }
}

/// A primitive stands for the model of the entity that its proxy is a collider of, where the proxy
/// has one that is found among the entity and the fifteen above it, and for none else.
pub proof fn law_primitive_model(
    proxy: u32,
    colliders: Seq<Option<u64>>,
    models: Map<u64, u32>,
    parents: Map<u64, u64>,
    k: nat,
    model: u32,
)
    ensures
        proxy >= colliders.len() || colliders[proxy as int] is None ==> primitive_model(
            proxy,
            colliders,
            models,
            parents,
        ) == u32::MAX,
        proxy < colliders.len() && (colliders[proxy as int] matches Some(entity) && k < 16
            && nearest_at(entity, models, parents, k, model)) ==> primitive_model(
            proxy,
            colliders,
            models,
            parents,
        ) == model,
{
    if proxy < colliders.len() && (colliders[proxy as int] matches Some(entity) && k < 16
        && nearest_at(entity, models, parents, k, model)) {
        let entity = colliders[proxy as int]->0;
        let j = law_nearest_model(entity, models, parents, 16);
        match model_of(entity, models, parents, 16) {
            Some(found) => {
                assert(none_at(entity, models, parents, j) || none_at(entity, models, parents, k)
                    || j == k);
            },
            None => {
                assert(none_at(entity, models, parents, k));
            },
        }
    }
}

} // verus!
