//! Finding the voxel that a pointer means, and the voxels that can be touched.

use crate::bits;
use crate::dense::geometry::DenseVoxelGeometry;
use crate::dense::layout;
use crate::math::IVec3;
use crate::math::UVec3;
use crate::render::bounds;
use crate::shaders::dense;
use crate::shaders::mesh;
use std::collections::HashMap;
use vstd::prelude::*;

verus! {

/// A voxel, by unsigned coordinates.
pub open spec fn unsigned(v: IVec3) -> UVec3 {
    UVec3 { x: v.x as u32, y: v.y as u32, z: v.z as u32 }
}

/// Whether a voxel lies in a model and is occupied.
pub open spec fn solid(geometry: DenseVoxelGeometry, v: IVec3) -> bool {
    &&& 0 <= v.x < geometry.extents()@[0]
    &&& 0 <= v.y < geometry.extents()@[1]
    &&& 0 <= v.z < geometry.extents()@[2]
    &&& geometry.occupied(dense::coords(unsigned(v)))
}

/// The place of a voxel among the bits of a model.
pub open spec fn bit_rank(size: [u32; 3], v: IVec3) -> int {
    layout::block_of(dense::coords(unsigned(v)), size) * 64 + layout::local_of(
        dense::coords(unsigned(v)),
    )
}

/// Whether a list holds the occupied voxels that have been looked at, in the order of their bits.
spec fn listed(
    geometry: DenseVoxelGeometry,
    voxels: Seq<IVec3>,
    block: int,
    remaining: u64,
) -> bool {
    &&& forall|v: IVec3|
        #[trigger] voxels.contains(v) <==> solid(geometry, v) && bounds::seen(
            geometry.extents(),
            block,
            remaining,
            unsigned(v),
        )
    &&& forall|i: int, j: int|
        0 <= i < j < voxels.len() ==> bit_rank(geometry.extents(), #[trigger] voxels[i]) < bit_rank(
            geometry.extents(),
            #[trigger] voxels[j],
        )
}

/// A voxel of a model is occupied where it lies inside and its bit is set in the word of its block.
/// Blocks have four voxels along each axis; the first axis comes first among the blocks and among
/// the bits, and a voxel's place counts the bits of the blocks before its own.
pub proof fn law_solid_reads_bit(geometry: DenseVoxelGeometry, v: IVec3)
    requires
        geometry.wf(),
    ensures
        ({
            let size = geometry.extents()@;
            let across = (size[0] + 3) / 4;
            let up = (size[1] + 3) / 4;
            let block = v.x as int / 4 + v.y as int / 4 * across + v.z as int / 4 * across * up;
            let bit = v.x as int % 4 + v.y as int % 4 * 4 + v.z as int % 4 * 16;
            let inside = 0 <= v.x < size[0] && 0 <= v.y < size[1] && 0 <= v.z < size[2];
            &&& solid(geometry, v) <==> inside && (geometry.words()[block] >> (bit as u64)) & 1 == 1
            &&& inside ==> bit_rank(geometry.extents(), v) == block * 64 + bit
        }),
{
}

/// Adds the occupied voxels of a block.
fn add_block(geometry: &DenseVoxelGeometry, index: usize, word: u64, voxels: &mut Vec<IVec3>)
    requires
        geometry.wf(),
        index < geometry.words().len(),
        word == geometry.words()[index as int],
        listed(*geometry, old(voxels)@, index as int, word),
        forall|i: int|
            0 <= i < old(voxels)@.len() ==> bit_rank(
                geometry.extents(),
                #[trigger] old(voxels)@[i],
            ) < index * 64,
    ensures
        listed(*geometry, final(voxels)@, index as int, 0),
        forall|i: int|
            0 <= i < final(voxels)@.len() ==> bit_rank(
                geometry.extents(),
                #[trigger] final(voxels)@[i],
            ) < (index + 1) * 64,
{
    let size: [u32; 3] = geometry.size();
    proof {
        layout::lemma_block_count_bound(size);
    }
    let extent: UVec3 = bounds::dense_block_extent(UVec3 { x: size[0], y: size[1], z: size[2] });
    let block: UVec3 = mesh::dense_block_coords(index as u32, extent);
    proof {
        bounds::lemma_voxel_at(size, index as int, block, 0);
    }
    let block_min: UVec3 = UVec3 { x: block.x * 4, y: block.y * 4, z: block.z * 4 };
    let mut remaining: u64 = word;
    while remaining != 0
        invariant
            geometry.wf(),
            index < geometry.words().len(),
            size == geometry.extents(),
            word == geometry.words()[index as int],
            listed(*geometry, voxels@, index as int, remaining),
            forall|i: int, bit: u64|
                0 <= i < voxels@.len() && bit < 64 && #[trigger] bits::bit64(remaining, bit)
                    ==> bit_rank(size, #[trigger] voxels@[i]) < index * 64 + bit,
            forall|i: int|
                0 <= i < voxels@.len() ==> bit_rank(size, #[trigger] voxels@[i]) < (index + 1) * 64,
            forall|i: u64| i < 64 && #[trigger] bits::bit64(remaining, i) ==> bits::bit64(word, i),
            block.x == index as int % layout::axis_blocks(size@[0]),
            block.y == (index as int / layout::axis_blocks(size@[0])) % layout::axis_blocks(
                size@[1],
            ),
            block.z == (index as int / layout::axis_blocks(size@[0])) / layout::axis_blocks(
                size@[1],
            ),
            block.x < 64,
            block.y < 64,
            block.z < 64,
            block_min == (UVec3 {
                x: (block.x * 4) as u32,
                y: (block.y * 4) as u32,
                z: (block.z * 4) as u32,
            }),
        decreases remaining,
    {
        proof {
            vstd::std_specs::bits::axiom_u64_trailing_zeros(remaining);
            bits::lemma_bit64_drop_lowest(remaining, 0);
            bits::lemma_bit64_drop_less(remaining);
        }
        let bit: u32 = remaining.trailing_zeros();
        proof {
            layout::lemma_split_local(bit);
            bounds::lemma_voxel_at(size, index as int, block, bit as int);
        }
        let local: UVec3 = UVec3 { x: bit & 3, y: (bit >> 2) & 3, z: (bit >> 4) & 3 };
        let voxel: UVec3 = UVec3 {
            x: block_min.x + local.x,
            y: block_min.y + local.y,
            z: block_min.z + local.z,
        };
        let ghost before = remaining;
        let ghost known = voxels@;
        remaining = remaining & (remaining - 1);
        let place: IVec3 = IVec3 { x: voxel.x as i32, y: voxel.y as i32, z: voxel.z as i32 };
        proof {
            assert(voxel == bounds::voxel_at(block, bit as int));
            assert(unsigned(place) == voxel);
            assert forall|i: u64| i < 64 implies #[trigger] bits::bit64(remaining, i) == (i != bit
                && bits::bit64(before, i)) by {
                bits::lemma_bit64_drop_lowest(before, i);
            }
            assert(bits::bit64(word, bit as u64));
            assert(bit_rank(size, place) == index * 64 + bit);
            assert forall|v: IVec3| solid(*geometry, v) implies (bounds::seen(
                size,
                index as int,
                remaining,
                unsigned(v),
            ) <==> bounds::seen(size, index as int, before, unsigned(v)) || v == place) by {
                layout::lemma_block_of_bound(dense::coords(unsigned(v)), size);
            }
        }
        if voxel.x < size[0] && voxel.y < size[1] && voxel.z < size[2] {
            voxels.push(place);
            proof {
                assert(solid(*geometry, place));
                assert forall|v: IVec3| #[trigger] voxels@.contains(v) <==> known.contains(v) || v
                    == place by {
                    if known.contains(v) {
                        let i = choose|i: int| 0 <= i < known.len() && known[i] == v;
                        assert(voxels@[i] == v);
                    }
                    assert(voxels@[known.len() as int] == place);
                }
            }
        } else {
            assert(!solid(*geometry, place));
        }
    }
}

/// The occupied voxels of a model, in the order of their bits.
pub fn dense_collider_voxels(geometry: &DenseVoxelGeometry) -> (r: Vec<IVec3>)
    requires
        geometry.wf(),
    ensures
        forall|v: IVec3| #[trigger] r@.contains(v) <==> solid(*geometry, v),
        forall|i: int, j: int|
            0 <= i < j < r@.len() ==> bit_rank(geometry.extents(), #[trigger] r@[i]) < bit_rank(
                geometry.extents(),
                #[trigger] r@[j],
            ),
{
    let mut voxels: Vec<IVec3> = Vec::new();
    let words: &[u64] = geometry.occupancy();
    let ghost size = geometry.extents();
    let mut index: usize = 0;
    proof {
        assert forall|v: IVec3| solid(*geometry, v) implies !bounds::seen(
            size,
            0,
            u64::MAX,
            unsigned(v),
        ) by {
            layout::lemma_block_of_bound(dense::coords(unsigned(v)), size);
            bounds::lemma_all_ones(layout::local_of(dense::coords(unsigned(v))) as u64);
        }
    }
    while index < words.len()
        invariant
            index <= words@.len(),
            words@ == geometry.words(),
            geometry.wf(),
            size == geometry.extents(),
            listed(*geometry, voxels@, index as int, u64::MAX),
            forall|i: int|
                0 <= i < voxels@.len() ==> bit_rank(size, #[trigger] voxels@[i]) < index * 64,
        decreases words@.len() - index,
    {
        let word: u64 = words[index];
        proof {
            assert forall|v: IVec3| solid(*geometry, v) implies (bounds::seen(
                size,
                index as int,
                word,
                unsigned(v),
            ) <==> bounds::seen(size, index as int, u64::MAX, unsigned(v))) by {
                layout::lemma_block_of_bound(dense::coords(unsigned(v)), size);
                bounds::lemma_all_ones(layout::local_of(dense::coords(unsigned(v))) as u64);
            }
        }
        add_block(geometry, index, word, &mut voxels);
        proof {
            assert forall|v: IVec3| solid(*geometry, v) implies (bounds::seen(
                size,
                index as int,
                0,
                unsigned(v),
            ) <==> bounds::seen(size, index + 1, u64::MAX, unsigned(v))) by {
                layout::lemma_block_of_bound(dense::coords(unsigned(v)), size);
                bounds::lemma_all_ones(layout::local_of(dense::coords(unsigned(v))) as u64);
                bits::lemma_bit64_zero(layout::local_of(dense::coords(unsigned(v))) as u64);
            }
        }
        index += 1;
    }
    proof {
        assert forall|v: IVec3| #[trigger] voxels@.contains(v) <==> solid(*geometry, v) by {
            if solid(*geometry, v) {
                layout::lemma_block_of_bound(dense::coords(unsigned(v)), size);
            }
        }
    }
    voxels
}

/// Whether a voxel lies in a part of a model, from its first voxel to just before its last.
pub open spec fn in_part(part: Option<(UVec3, UVec3)>, x: u32, y: u32, z: u32) -> bool {
    part matches Some((min, max)) && min.x <= x < max.x && min.y <= y < max.y && min.z <= z < max.z
}

/// The part of a model that is shown, where there is any: from its first voxel to just before its
/// last.
pub fn pick_bounds(size: [u32; 3], cull_min: UVec3, cull_max: UVec3) -> (r: Option<(UVec3, UVec3)>)
    ensures
        ({
            let extents = UVec3 { x: size@[0], y: size@[1], z: size@[2] };
            let min = cull_min.min_spec(extents);
            let max = cull_max.min_spec(extents);
            r == (if min.x < max.x && min.y < max.y && min.z < max.z {
                Some((min, max))
            } else {
                None
            })
        }),
        forall|x: u32, y: u32, z: u32|
            #![trigger in_part(r, x, y, z)]
            in_part(r, x, y, z) <==> {
                &&& x < size@[0] && cull_min.x <= x < cull_max.x
                &&& y < size@[1] && cull_min.y <= y < cull_max.y
                &&& z < size@[2] && cull_min.z <= z < cull_max.z
            },
{
    let extents: UVec3 = UVec3 { x: size[0], y: size[1], z: size[2] };
    let min: UVec3 = cull_min.min(extents);
    let max: UVec3 = cull_max.min(extents);
    if min.x >= max.x || min.y >= max.y || min.z >= max.z {
        return None;
    }
    Some((min, max))
}

/// Which way a ray goes along an axis, given whether it rises or falls there.
pub fn axis_step(rising: bool, falling: bool) -> (r: i32)
    ensures
        r == (if rising {
            1int
        } else if falling {
            -1int
        } else {
            0int
        }),
{
    if rising {
        1
    } else if falling {
        -1
    } else {
        0
    }
}

/// Where a ray leaves a voxel along an axis, if it does.
pub fn next_voxel_boundary(voxel: i32, step: i32) -> (r: Option<i32>)
    requires
        step > 0 ==> voxel < i32::MAX,
    ensures
        r == (if step == 0 {
            None
        } else if step > 0 {
            Some((voxel + 1) as i32)
        } else {
            Some(voxel)
        }),
{
    if step == 0 {
        return None;
    }
    Some(
        if step > 0 {
            voxel + 1
        } else {
            voxel
        },
    )
}

/// A number, or the nearest one between two others.
pub open spec fn clamped(x: int, lo: int, hi: int) -> int {
    if x < lo {
        lo
    } else if x > hi {
        hi
    } else {
        x
    }
}

fn clamp(x: i32, lo: i32, hi: i32) -> (r: i32)
    ensures
        r == clamped(x as int, lo as int, hi as int),
{
    if x < lo {
        lo
    } else if x > hi {
        hi
    } else {
        x
    }
}

/// A walk along a ray through the part of a model that is shown.
#[derive(Clone, Copy, Debug, PartialEq, Eq, Structural)]
pub struct PickWalk {
    pub min: IVec3,
    pub max: IVec3,
    pub voxel: IVec3,
    pub step: IVec3,
}

/// How far a walk can go along an axis before it leaves the part that is shown.
pub open spec fn axis_left(min: i32, max: i32, voxel: i32, step: i32) -> int {
    if step > 0 {
        max - voxel
    } else if step < 0 {
        voxel - min + 1
    } else {
        0
    }
}

impl PickWalk {
    /// Whether the part that is shown has voxels, and the walk goes a voxel at a time.
    pub open spec fn wf(&self) -> bool {
        &&& i32::MIN < self.min.x < self.max.x
        &&& i32::MIN < self.min.y < self.max.y
        &&& i32::MIN < self.min.z < self.max.z
        &&& -1 <= self.step.x <= 1
        &&& -1 <= self.step.y <= 1
        &&& -1 <= self.step.z <= 1
    }

    /// Whether the walk is in the part that is shown.
    pub open spec fn within(&self) -> bool {
        &&& self.min.x <= self.voxel.x < self.max.x
        &&& self.min.y <= self.voxel.y < self.max.y
        &&& self.min.z <= self.voxel.z < self.max.z
    }

    /// How far the walk can go before it leaves the part that is shown.
    pub open spec fn left(&self) -> int {
        axis_left(self.min.x, self.max.x, self.voxel.x, self.step.x) + axis_left(
            self.min.y,
            self.max.y,
            self.voxel.y,
            self.step.y,
        ) + axis_left(self.min.z, self.max.z, self.voxel.z, self.step.z)
    }

    /// Whether this is a walk after it went on along the given axes.
    pub open spec fn went_on(&self, before: PickWalk, crossed: [bool; 3]) -> bool {
        &&& self.min == before.min
        &&& self.max == before.max
        &&& self.step == before.step
        &&& self.voxel.x == before.voxel.x + (if crossed@[0] {
            before.step.x as int
        } else {
            0
        })
        &&& self.voxel.y == before.voxel.y + (if crossed@[1] {
            before.step.y as int
        } else {
            0
        })
        &&& self.voxel.z == before.voxel.z + (if crossed@[2] {
            before.step.z as int
        } else {
            0
        })
    }

    /// A walk that starts at the voxel of the part that is shown nearest to the given one.
    pub fn begin(min: IVec3, max: IVec3, start: IVec3, step: IVec3) -> (r: PickWalk)
        requires
            (PickWalk { min, max, voxel: start, step }).wf(),
        ensures
            r.wf(),
            r.within(),
            r == (PickWalk {
                min,
                max,
                voxel: IVec3 {
                    x: clamped(start.x as int, min.x as int, max.x - 1) as i32,
                    y: clamped(start.y as int, min.y as int, max.y - 1) as i32,
                    z: clamped(start.z as int, min.z as int, max.z - 1) as i32,
                },
                step,
            }),
            min.x <= start.x < max.x ==> r.voxel.x == start.x,
            start.x < min.x ==> r.voxel.x == min.x,
            start.x >= max.x ==> r.voxel.x == max.x - 1,
            min.y <= start.y < max.y ==> r.voxel.y == start.y,
            start.y < min.y ==> r.voxel.y == min.y,
            start.y >= max.y ==> r.voxel.y == max.y - 1,
            min.z <= start.z < max.z ==> r.voxel.z == start.z,
            start.z < min.z ==> r.voxel.z == min.z,
            start.z >= max.z ==> r.voxel.z == max.z - 1,
    {
        let voxel: IVec3 = IVec3 {
            x: clamp(start.x, min.x, max.x - 1),
            y: clamp(start.y, min.y, max.y - 1),
            z: clamp(start.z, min.z, max.z - 1),
        };
        PickWalk { min, max, voxel, step }
    }

    /// Whether the walk is in the part that is shown.
    pub fn is_within(&self) -> (r: bool)
        ensures
            r == self.within(),
    {
        self.voxel.x >= self.min.x && self.voxel.y >= self.min.y && self.voxel.z >= self.min.z
            && self.voxel.x < self.max.x && self.voxel.y < self.max.y && self.voxel.z < self.max.z
    }

    /// The voxel that the walk is at, where it is occupied.
    pub fn probe(&self, geometry: &DenseVoxelGeometry) -> (r: Option<[u32; 3]>)
        requires
            geometry.wf(),
            self.within(),
            0 <= self.min.x,
            0 <= self.min.y,
            0 <= self.min.z,
            self.max.x <= geometry.extents()@[0],
            self.max.y <= geometry.extents()@[1],
            self.max.z <= geometry.extents()@[2],
        ensures
            r is Some <==> solid(*geometry, self.voxel),
            r matches Some(coords) ==> coords == dense::coords(unsigned(self.voxel)),
    {
        let coords: [u32; 3] = [self.voxel.x as u32, self.voxel.y as u32, self.voxel.z as u32];
        assert(coords =~= dense::coords(unsigned(self.voxel)));
        if geometry.is_occupied(coords) {
            Some(coords)
        } else {
            None
        }
    }

    /// Goes on along the axes on which the voxel is left next.
    pub fn cross(&mut self, crossed: [bool; 3])
        requires
            old(self).wf(),
            old(self).within(),
        ensures
            final(self).wf(),
            final(self).went_on(*old(self), crossed),
            final(self).min == old(self).min,
            final(self).max == old(self).max,
            final(self).step == old(self).step,
            crossed@[0] ==> final(self).voxel.x == old(self).voxel.x + old(self).step.x,
            !crossed@[0] ==> final(self).voxel.x == old(self).voxel.x,
            crossed@[1] ==> final(self).voxel.y == old(self).voxel.y + old(self).step.y,
            !crossed@[1] ==> final(self).voxel.y == old(self).voxel.y,
            crossed@[2] ==> final(self).voxel.z == old(self).voxel.z + old(self).step.z,
            !crossed@[2] ==> final(self).voxel.z == old(self).voxel.z,
    {
        let mut voxel: IVec3 = self.voxel;
        if crossed[0] {
            voxel.x = voxel.x + self.step.x;
        }
        if crossed[1] {
            voxel.y = voxel.y + self.step.y;
        }
        if crossed[2] {
            voxel.z = voxel.z + self.step.z;
        }
        self.voxel = voxel;
    }
}

/// A walk ends: while it is in the part that is shown it has some way left, unless it goes nowhere,
/// and each step along an axis on which it goes somewhere leaves it less.
pub proof fn law_pick_ends(before: PickWalk, after: PickWalk, crossed: [bool; 3])
    requires
        before.wf(),
        before.within(),
        after.went_on(before, crossed),
        crossed@[0] && before.step.x != 0 || crossed@[1] && before.step.y != 0 || crossed@[2]
            && before.step.z != 0,
    ensures
        0 <= after.left() < before.left(),
{
}

/// The entity `n` steps up from an entity, where there is one.
pub open spec fn ancestor(parents: Map<u64, u64>, entity: u64, n: nat) -> Option<u64>
    decreases n,
{
    if n == 0 {
        Some(entity)
    } else {
        match ancestor(parents, entity, (n - 1) as nat) {
            Some(below) => if parents.contains_key(below) {
                Some(parents[below])
            } else {
                None
            },
            None => None,
        }
    }
}

/// Whether no entity is above itself: depths can be given to the entities so that each is deeper
/// than its parent.
pub open spec fn acyclic(parents: Map<u64, u64>) -> bool {
    exists|depth: spec_fn(u64) -> nat| is_depth(parents, depth)
}

/// Whether each entity is deeper than its parent.
pub open spec fn is_depth(parents: Map<u64, u64>, depth: spec_fn(u64) -> nat) -> bool {
    forall|entity: u64|
        #[trigger] parents.contains_key(entity) ==> depth(parents[entity]) < depth(entity)
}

/// Whether an entity is the first with a model among an entity and those above it.
pub open spec fn is_nearest_model(
    models: Map<u64, u64>,
    parents: Map<u64, u64>,
    entity: u64,
    r: Option<u64>,
) -> bool {
    match r {
        Some(found) => exists|n: nat|
            #[trigger] ancestor(parents, entity, n) == Some(found) && models.contains_key(found)
                && forall|k: nat|
                k < n ==> #[trigger] ancestor(parents, entity, k) is Some && !models.contains_key(
                    ancestor(parents, entity, k)->0,
                ),
        None => forall|k: nat|
            (#[trigger] ancestor(parents, entity, k)) is Some ==> !models.contains_key(
                ancestor(parents, entity, k)->0,
            ),
    }
}

/// The first entity with a model among an entity and those above it, where there is one.
pub fn find_dense_model_entity(
    entity: u64,
    models: &HashMap<u64, u64>,
    parents: &HashMap<u64, u64>,
) -> (r: Option<u64>)
    requires
        acyclic(parents@),
    ensures
        is_nearest_model(models@, parents@, entity, r),
{
    let ghost depth = choose|depth: spec_fn(u64) -> nat| is_depth(parents@, depth);
    let ghost mut n: nat = 0;
    let mut current: u64 = entity;
    loop
        invariant
            is_depth(parents@, depth),
            ancestor(parents@, entity, n) == Some(current),
            forall|k: nat|
                k < n ==> #[trigger] ancestor(parents@, entity, k) is Some && !models@.contains_key(
                    ancestor(parents@, entity, k)->0,
                ),
        decreases depth(current),
    {
        if models.contains_key(&current) {
            return Some(current);
        }
        match parents.get(&current) {
            Some(parent) => {
                current = *parent;
                proof {
                    n = n + 1;
                }
            },
            None => {
                proof {
                    assert forall|k: nat| (#[trigger] ancestor(
                        parents@,
                        entity,
                        k,
                    )) is Some implies !models@.contains_key(ancestor(parents@, entity, k)->0) by {
                        if k > n {
                            lemma_no_ancestor(parents@, entity, n + 1, k);
                        }
                    }
                }
                return None;
            },
        }
    }
}

proof fn lemma_no_ancestor(parents: Map<u64, u64>, entity: u64, n: nat, k: nat)
    requires
        ancestor(parents, entity, n) is None,
        n <= k,
    ensures
        ancestor(parents, entity, k) is None,
    decreases k,
{
    if n < k {
        lemma_no_ancestor(parents, entity, n, (k - 1) as nat);
    }
}

/// The entities above an entity are its parent, the parent of that, and so on.
pub proof fn law_ancestors(parents: Map<u64, u64>, entity: u64, n: nat)
    ensures
        ancestor(parents, entity, 0) == Some(entity),
        ancestor(parents, entity, n) matches Some(below) ==> {
            &&& parents.contains_key(below) ==> ancestor(parents, entity, n + 1) == Some(
                parents[below],
            )
            &&& !parents.contains_key(below) ==> ancestor(parents, entity, n + 1) is None
        },
{
}

/// Wherever an entity or one above it has a model, one is found, and it is not further up.
pub proof fn law_model_is_found(
    models: Map<u64, u64>,
    parents: Map<u64, u64>,
    entity: u64,
    r: Option<u64>,
    n: nat,
) -> (k: nat)
    requires
        is_nearest_model(models, parents, entity, r),
        ancestor(parents, entity, n) matches Some(at) && models.contains_key(at),
    ensures
        k <= n,
        r is Some,
        ancestor(parents, entity, k) == r,
        models.contains_key(r->0),
{
    match r {
        Some(found) => {
            let k = choose|k: nat|
                #[trigger] ancestor(parents, entity, k) == Some(found) && models.contains_key(found)
                    && forall|j: nat|
                    j < k ==> #[trigger] ancestor(parents, entity, j) is Some
                        && !models.contains_key(ancestor(parents, entity, j)->0);
            assert(ancestor(parents, entity, n) is Some);
            k
        },
        None => {
            assert(ancestor(parents, entity, n) is Some);
            0
        },
    }
}

} // verus!
