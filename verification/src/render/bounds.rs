//! The box around the voxels of a dense model that are shown.

use crate::bits;
use crate::dense::geometry::DenseVoxelGeometry;
use crate::dense::layout;
use crate::math::UVec3;
use crate::shaders::dense;
use crate::shaders::mesh;
use std::collections::BTreeMap;
use vstd::prelude::*;

verus! {

/// A number moved into 32 bits.
pub open spec fn saturated(x: int) -> u32 {
    if x <= u32::MAX {
        x as u32
    } else {
        u32::MAX
    }
}

/// A number that fits into 32 bits stays, and a larger one becomes the largest that does.
pub proof fn law_saturated(x: int)
    requires
        0 <= x,
    ensures
        x <= 0xffff_ffff ==> saturated(x) == x,
        x > 0xffff_ffff ==> saturated(x) == 0xffff_ffff,
{
}

fn saturated_product(a: u32, b: u32) -> (r: u32)
    ensures
        r == saturated(a * b),
{
    match a.checked_mul(b) {
        Some(product) => product,
        None => u32::MAX,
    }
}

/// The extents of a model in blocks.
pub fn dense_block_extent(size: UVec3) -> (r: UVec3)
    requires
        size.x + 3 <= u32::MAX,
        size.y + 3 <= u32::MAX,
        size.z + 3 <= u32::MAX,
    ensures
        r.x == layout::axis_blocks(size.x),
        r.y == layout::axis_blocks(size.y),
        r.z == layout::axis_blocks(size.z),
{
    UVec3 { x: (size.x + 3) / 4, y: (size.y + 3) / 4, z: (size.z + 3) / 4 }
}

/// The number of blocks of a model, as far as it can be told.
pub fn dense_block_count(size: [u32; 3]) -> (r: u32)
    requires
        size@[0] + 3 <= u32::MAX,
        size@[1] + 3 <= u32::MAX,
        size@[2] + 3 <= u32::MAX,
    ensures
        r == saturated(
            saturated(layout::axis_blocks(size@[0]) * layout::axis_blocks(size@[1]))
                * layout::axis_blocks(size@[2]),
        ),
        layout::valid_size(size) ==> r == layout::block_count_spec(size),
{
    let extent: UVec3 = dense_block_extent(UVec3 { x: size[0], y: size[1], z: size[2] });
    proof {
        if layout::valid_size(size) {
            layout::lemma_block_count_bound(size);
        }
    }
    saturated_product(saturated_product(extent.x, extent.y), extent.z)
}

/// Whether a voxel is occupied and lies between `lo` and `hi`.
pub open spec fn found(geometry: DenseVoxelGeometry, lo: UVec3, hi: UVec3, v: UVec3) -> bool {
    &&& layout::in_bounds(dense::coords(v), geometry.extents())
    &&& geometry.occupied(dense::coords(v))
    &&& lo.x <= v.x < hi.x
    &&& lo.y <= v.y < hi.y
    &&& lo.z <= v.z < hi.z
}

/// Whether a voxel lies in the box from `min` to just before `max`.
pub open spec fn boxed(min: UVec3, max: UVec3, v: UVec3) -> bool {
    &&& min.x <= v.x < max.x
    &&& min.y <= v.y < max.y
    &&& min.z <= v.z < max.z
}

/// Whether each side of a box touches a voxel that is found.
pub open spec fn touched(
    geometry: DenseVoxelGeometry,
    lo: UVec3,
    hi: UVec3,
    min: UVec3,
    max: UVec3,
) -> bool {
    &&& exists|v: UVec3| #[trigger] found(geometry, lo, hi, v) && v.x == min.x
    &&& exists|v: UVec3| #[trigger] found(geometry, lo, hi, v) && v.y == min.y
    &&& exists|v: UVec3| #[trigger] found(geometry, lo, hi, v) && v.z == min.z
    &&& exists|v: UVec3| #[trigger] found(geometry, lo, hi, v) && v.x + 1 == max.x
    &&& exists|v: UVec3| #[trigger] found(geometry, lo, hi, v) && v.y + 1 == max.y
    &&& exists|v: UVec3| #[trigger] found(geometry, lo, hi, v) && v.z + 1 == max.z
}

/// Whether a voxel has been looked at: its block comes before `block`, or its bit is no longer
/// among those that remain of `block`.
pub open spec fn seen(size: [u32; 3], block: int, remaining: u64, v: UVec3) -> bool {
    ||| layout::block_of(dense::coords(v), size) < block
    ||| layout::block_of(dense::coords(v), size) == block && !bits::bit64(
        remaining,
        layout::local_of(dense::coords(v)) as u64,
    )
}

/// Whether `min` and `max` are the box around the voxels that were found among those seen.
spec fn around(
    geometry: DenseVoxelGeometry,
    lo: UVec3,
    hi: UVec3,
    block: int,
    remaining: u64,
    min: UVec3,
    max: UVec3,
) -> bool {
    &&& forall|v: UVec3|
        #[trigger] found(geometry, lo, hi, v) && seen(geometry.extents(), block, remaining, v)
            ==> boxed(min, max, v)
    &&& {
        ||| touched(geometry, lo, hi, min, max)
        ||| min == (UVec3 { x: u32::MAX, y: u32::MAX, z: u32::MAX }) && max == (UVec3 {
            x: 0,
            y: 0,
            z: 0,
        })
    }
}

/// The voxel of bit `bit` of the block with the given coordinates.
pub open spec fn voxel_at(block: UVec3, bit: int) -> UVec3 {
    UVec3 {
        x: (block.x * 4 + bit % 4) as u32,
        y: (block.y * 4 + (bit / 4) % 4) as u32,
        z: (block.z * 4 + bit / 16) as u32,
    }
}

pub proof fn lemma_voxel_at(size: [u32; 3], index: int, block: UVec3, bit: int)
    requires
        layout::valid_size(size),
        0 <= index < layout::block_count_spec(size),
        0 <= bit < 64,
        block.x == index % layout::axis_blocks(size@[0]),
        block.y == (index / layout::axis_blocks(size@[0])) % layout::axis_blocks(size@[1]),
        block.z == (index / layout::axis_blocks(size@[0])) / layout::axis_blocks(size@[1]),
    ensures
        block.x < layout::axis_blocks(size@[0]),
        block.y < layout::axis_blocks(size@[1]),
        block.z < layout::axis_blocks(size@[2]),
        layout::block_of(dense::coords(voxel_at(block, bit)), size) == index,
        layout::local_of(dense::coords(voxel_at(block, bit))) == bit,
        forall|v: UVec3|
            #[trigger] layout::block_of(dense::coords(v), size) == index && layout::in_bounds(
                dense::coords(v),
                size,
            ) && layout::local_of(dense::coords(v)) == bit ==> v == voxel_at(block, bit),
{
    let ex = layout::axis_blocks(size@[0]);
    let ey = layout::axis_blocks(size@[1]);
    let ez = layout::axis_blocks(size@[2]);
    layout::lemma_linear_cover(index, ex, ey, ez);
    let w = voxel_at(block, bit);
    assert(w.x / 4 == block.x && w.x % 4 == bit % 4);
    assert(w.y / 4 == block.y && w.y % 4 == (bit / 4) % 4);
    assert(w.z / 4 == block.z && w.z % 4 == bit / 16);
    assert forall|v: UVec3|
        #[trigger] layout::block_of(dense::coords(v), size) == index && layout::in_bounds(
            dense::coords(v),
            size,
        ) && layout::local_of(dense::coords(v)) == bit implies v == w by {
        layout::lemma_linear_inverse(v.x as int / 4, v.y as int / 4, v.z as int / 4, ex, ey);
        assert(v.x / 4 == block.x && v.y / 4 == block.y && v.z / 4 == block.z);
        assert(v.x % 4 == bit % 4);
        assert(v.y % 4 == (bit / 4) % 4);
        assert(v.z % 4 == bit / 16);
    }
}

proof fn lemma_include(
    geometry: DenseVoxelGeometry,
    lo: UVec3,
    hi: UVec3,
    min: UVec3,
    max: UVec3,
    v: UVec3,
)
    requires
        found(geometry, lo, hi, v),
        v.x < u32::MAX,
        v.y < u32::MAX,
        v.z < u32::MAX,
        touched(geometry, lo, hi, min, max) || (min == (UVec3 {
            x: u32::MAX,
            y: u32::MAX,
            z: u32::MAX,
        }) && max == (UVec3 { x: 0, y: 0, z: 0 })),
    ensures
        touched(
            geometry,
            lo,
            hi,
            min.min_spec(v),
            max.max_spec(UVec3 { x: (v.x + 1) as u32, y: (v.y + 1) as u32, z: (v.z + 1) as u32 }),
        ),
        forall|w: UVec3|
            boxed(min, max, w) || w == v ==> #[trigger] boxed(
                min.min_spec(v),
                max.max_spec(
                    UVec3 { x: (v.x + 1) as u32, y: (v.y + 1) as u32, z: (v.z + 1) as u32 },
                ),
                w,
            ),
{
}

/// Grows a box by the voxels of a block that are found.
fn include_block(
    geometry: &DenseVoxelGeometry,
    index: usize,
    word: u64,
    lo: UVec3,
    hi: UVec3,
    box_min: UVec3,
    box_max: UVec3,
) -> (r: (UVec3, UVec3))
    requires
        geometry.wf(),
        index < geometry.words().len(),
        word == geometry.words()[index as int],
        around(*geometry, lo, hi, index as int, word, box_min, box_max),
        hi.x <= geometry.extents()@[0],
        hi.y <= geometry.extents()@[1],
        hi.z <= geometry.extents()@[2],
    ensures
        around(*geometry, lo, hi, index as int, 0, r.0, r.1),
{
    let size: [u32; 3] = geometry.size();
    proof {
        layout::lemma_block_count_bound(size);
    }
    let extent: UVec3 = dense_block_extent(UVec3 { x: size[0], y: size[1], z: size[2] });
    let block: UVec3 = mesh::dense_block_coords(index as u32, extent);
    proof {
        lemma_voxel_at(size, index as int, block, 0);
    }
    let block_min: UVec3 = UVec3 { x: block.x * 4, y: block.y * 4, z: block.z * 4 };
    let mut min: UVec3 = box_min;
    let mut max: UVec3 = box_max;
    let mut remaining: u64 = word;
    while remaining != 0
        invariant
            geometry.wf(),
            index < geometry.words().len(),
            size == geometry.extents(),
            word == geometry.words()[index as int],
            around(*geometry, lo, hi, index as int, remaining, min, max),
            forall|i: u64| i < 64 && #[trigger] bits::bit64(remaining, i) ==> bits::bit64(word, i),
            block.x == index as int % layout::axis_blocks(size@[0]),
            block.y == (index as int / layout::axis_blocks(size@[0])) % layout::axis_blocks(
                size@[1],
            ),
            block.z == (index as int / layout::axis_blocks(size@[0])) / layout::axis_blocks(
                size@[1],
            ),
            block.x < 64,
            block.y < 64,
            block.z < 64,
            block_min == (UVec3 {
                x: (block.x * 4) as u32,
                y: (block.y * 4) as u32,
                z: (block.z * 4) as u32,
            }),
        decreases remaining,
    {
        proof {
            vstd::std_specs::bits::axiom_u64_trailing_zeros(remaining);
            bits::lemma_bit64_drop_lowest(remaining, 0);
            bits::lemma_bit64_drop_less(remaining);
        }
        let bit: u32 = remaining.trailing_zeros();
        proof {
            layout::lemma_split_local(bit);
            lemma_voxel_at(size, index as int, block, bit as int);
        }
        let local: UVec3 = UVec3 { x: bit & 3, y: (bit >> 2) & 3, z: (bit >> 4) & 3 };
        let voxel: UVec3 = UVec3 {
            x: block_min.x + local.x,
            y: block_min.y + local.y,
            z: block_min.z + local.z,
        };
        let ghost before = remaining;
        remaining = remaining & (remaining - 1);
        proof {
            assert(voxel == voxel_at(block, bit as int));
            assert forall|i: u64| i < 64 implies #[trigger] bits::bit64(remaining, i) == (i != bit
                && bits::bit64(before, i)) by {
                bits::lemma_bit64_drop_lowest(before, i);
            }
            assert forall|v: UVec3|
                #[trigger] found(*geometry, lo, hi, v) && seen(
                    geometry.extents(),
                    index as int,
                    remaining,
                    v,
                ) implies seen(geometry.extents(), index as int, before, v) || v == voxel by {
                layout::lemma_block_of_bound(dense::coords(v), size);
            }
        }
        if voxel.x < size[0] && voxel.y < size[1] && voxel.z < size[2] && voxel.x >= lo.x && voxel.y
            >= lo.y && voxel.z >= lo.z && voxel.x < hi.x && voxel.y < hi.y && voxel.z < hi.z {
            proof {
                assert(bits::bit64(word, bit as u64));
                assert(found(*geometry, lo, hi, voxel));
                lemma_include(*geometry, lo, hi, min, max, voxel);
            }
            min = min.min(voxel);
            max = max.max(UVec3 { x: voxel.x + 1, y: voxel.y + 1, z: voxel.z + 1 });
        } else {
            assert(!found(*geometry, lo, hi, voxel));
        }
    }
    (min, max)
}

/// Whether `r` is the box around the voxels of a model that are occupied and shown.
pub open spec fn is_bounds(
    geometry: DenseVoxelGeometry,
    cull_min: UVec3,
    cull_max: UVec3,
    r: Option<(UVec3, UVec3)>,
) -> bool {
    match r {
        None => forall|v: UVec3| !#[trigger] found(geometry, cull_min, cull_max, v),
        Some((min, max)) => {
            &&& forall|v: UVec3| #[trigger] found(geometry, cull_min, cull_max, v) ==> boxed(min, max, v)
            &&& touched(geometry, cull_min, cull_max, min, max)
        },
    }
}

/// The box around the voxels of a model that are occupied and shown, where there are some.
pub fn geometry_bounds(geometry: &DenseVoxelGeometry, cull_min: UVec3, cull_max: UVec3) -> (r: Option<
    (UVec3, UVec3),
>)
    requires
        geometry.wf(),
    ensures
        is_bounds(*geometry, cull_min, cull_max, r),
{
    let extents: [u32; 3] = geometry.size();
    let size: UVec3 = UVec3 { x: extents[0], y: extents[1], z: extents[2] };
    let lo: UVec3 = cull_min.min(size);
    let hi: UVec3 = cull_max.min(size);
    proof {
        assert forall|v: UVec3| #[trigger] found(*geometry, cull_min, cull_max, v) <==> found(
            *geometry,
            lo,
            hi,
            v,
        ) by {}
    }
    if lo.x >= hi.x || lo.y >= hi.y || lo.z >= hi.z {
        assert forall|v: UVec3| !#[trigger] found(*geometry, cull_min, cull_max, v) by {
            assert(!found(*geometry, lo, hi, v));
        }
        return None;
    }
    let mut min: UVec3 = UVec3 { x: u32::MAX, y: u32::MAX, z: u32::MAX };
    let mut max: UVec3 = UVec3 { x: 0, y: 0, z: 0 };
    let words: &[u64] = geometry.occupancy();
    let mut index: usize = 0;
    proof {
        assert forall|v: UVec3|
            #[trigger] found(*geometry, lo, hi, v) && seen(
                geometry.extents(),
                0,
                u64::MAX,
                v,
            ) implies boxed(min, max, v) by {
            layout::lemma_block_of_bound(dense::coords(v), geometry.extents());
            lemma_all_ones(layout::local_of(dense::coords(v)) as u64);
        }
    }
    while index < words.len()
        invariant
            index <= words@.len(),
            words@ == geometry.words(),
            geometry.wf(),
            extents == geometry.extents(),
            hi.x <= extents@[0],
            hi.y <= extents@[1],
            hi.z <= extents@[2],
            around(*geometry, lo, hi, index as int, u64::MAX, min, max),
        decreases words@.len() - index,
    {
        let word: u64 = words[index];
        proof {
            assert forall|v: UVec3|
                #[trigger] found(*geometry, lo, hi, v) && seen(
                    geometry.extents(),
                    index as int,
                    word,
                    v,
                ) implies seen(geometry.extents(), index as int, u64::MAX, v) by {
                layout::lemma_block_of_bound(dense::coords(v), geometry.extents());
            }
        }
        if word != 0 {
            let (block_min, block_max): (UVec3, UVec3) = include_block(
                geometry,
                index,
                word,
                lo,
                hi,
                min,
                max,
            );
            min = block_min;
            max = block_max;
        }
        proof {
            assert forall|v: UVec3|
                #[trigger] found(*geometry, lo, hi, v) && seen(
                    geometry.extents(),
                    index + 1,
                    u64::MAX,
                    v,
                ) implies seen(geometry.extents(), index as int, 0, v) by {
                layout::lemma_block_of_bound(dense::coords(v), geometry.extents());
                lemma_all_ones(layout::local_of(dense::coords(v)) as u64);
                bits::lemma_bit64_zero(layout::local_of(dense::coords(v)) as u64);
            }
            assert(around(*geometry, lo, hi, index + 1, u64::MAX, min, max));
        }
        index += 1;
    }
    proof {
        assert forall|v: UVec3| #[trigger] found(*geometry, cull_min, cull_max, v) implies boxed(
            min,
            max,
            v,
        ) by {
            layout::lemma_block_of_bound(dense::coords(v), geometry.extents());
            assert(found(*geometry, lo, hi, v));
            assert(seen(geometry.extents(), index as int, u64::MAX, v));
        }
    }
    if min.x == u32::MAX && min.y == u32::MAX && min.z == u32::MAX {
        None
    } else {
        proof {
            lemma_touched_range(*geometry, lo, hi, cull_min, cull_max, min, max);
        }
        Some((min, max))
    }
}

proof fn lemma_touched_range(
    geometry: DenseVoxelGeometry,
    lo: UVec3,
    hi: UVec3,
    cull_min: UVec3,
    cull_max: UVec3,
    min: UVec3,
    max: UVec3,
)
    requires
        touched(geometry, lo, hi, min, max),
        forall|v: UVec3| #[trigger] found(geometry, lo, hi, v) ==> found(geometry, cull_min, cull_max, v),
    ensures
        touched(geometry, cull_min, cull_max, min, max),
{
}

pub proof fn lemma_all_ones(i: u64)
    by (bit_vector)
    requires
        i < 64,
    ensures
        (0xffff_ffff_ffff_ffffu64 >> i) & 1 == 1,
{
}

/// Whether a voxel is occupied and lies between `lo` and `hi`, told by its bit: blocks have four
/// voxels along each axis, and the first axis comes first among the blocks and among the bits.
pub open spec fn bit_found(geometry: DenseVoxelGeometry, lo: UVec3, hi: UVec3, v: UVec3) -> bool {
    let size = geometry.extents()@;
    let across = (size[0] + 3) / 4;
    let up = (size[1] + 3) / 4;
    let word = geometry.words()[v.x / 4 + v.y / 4 * across + v.z / 4 * across * up];
    &&& v.x < size[0] && v.y < size[1] && v.z < size[2]
    &&& lo.x <= v.x < hi.x && lo.y <= v.y < hi.y && lo.z <= v.z < hi.z
    &&& (word >> ((v.x % 4 + v.y % 4 * 4 + v.z % 4 * 16) as u64)) & 1 == 1
}

/// The box around the voxels that are occupied and shown is the smallest that holds them all: just
/// those boxes hold them that hold it. There is none just where there is no such voxel.
pub proof fn law_bounds_hold_voxels(
    geometry: DenseVoxelGeometry,
    lo: UVec3,
    hi: UVec3,
    r: Option<(UVec3, UVec3)>,
    low: UVec3,
    high: UVec3,
)
    requires
        is_bounds(geometry, lo, hi, r),
    ensures
        r is None <==> forall|v: UVec3| !#[trigger] bit_found(geometry, lo, hi, v),
        r matches Some((min, max)) ==> {
            (forall|v: UVec3| #[trigger] bit_found(geometry, lo, hi, v) ==> {
                &&& low.x <= v.x < high.x
                &&& low.y <= v.y < high.y
                &&& low.z <= v.z < high.z
            }) <==> {
                &&& low.x <= min.x && max.x <= high.x
                &&& low.y <= min.y && max.y <= high.y
                &&& low.z <= min.z && max.z <= high.z
            }
        },
{
    assert forall|v: UVec3| #[trigger] bit_found(geometry, lo, hi, v) == found(geometry, lo, hi, v) by {}
    assert forall|v: UVec3| #[trigger] found(geometry, lo, hi, v) == bit_found(geometry, lo, hi, v) by {}
    if let Some((min, max)) = r {
        assert(touched(geometry, lo, hi, min, max));
    }
}

/// The boxes that have been computed, by model and range.
pub struct BoundsCache {
    entries: BTreeMap<(u64, u32, u32, u32, u32, u32, u32), Option<(UVec3, UVec3)>>,
}

/// The key of a model and a range.
pub open spec fn bounds_key(id: u64, cull_min: UVec3, cull_max: UVec3) -> (
    u64,
    u32,
    u32,
    u32,
    u32,
    u32,
    u32,
) {
    (id, cull_min.x, cull_min.y, cull_min.z, cull_max.x, cull_max.y, cull_max.z)
}

/// Keys are the same just for the same model and range.
pub proof fn law_keys_tell_ranges(
    a: u64,
    a_min: UVec3,
    a_max: UVec3,
    b: u64,
    b_min: UVec3,
    b_max: UVec3,
)
    ensures
        bounds_key(a, a_min, a_max) == bounds_key(b, b_min, b_max) <==> a == b && a_min == b_min
            && a_max == b_max,
{
}

/// Keys of seven numbers are told apart and ordered by a map.
proof fn lemma_keys_are_ordered()
    ensures
        vstd::laws_cmp::obeys_cmp::<(u64, u32, u32, u32, u32, u32, u32)>(),
        vstd::std_specs::btree::key_obeys_cmp_spec::<(u64, u32, u32, u32, u32, u32, u32)>(),
{
    broadcast use vstd::std_specs::btree::group_btree_axioms;
    broadcast use vstd::laws_cmp::group_laws_cmp;

    assert(vstd::laws_cmp::obeys_cmp::<u32>());
    assert(vstd::laws_cmp::obeys_cmp::<u64>());
}

impl BoundsCache {
    /// The boxes, each under the key of its model and range.
    pub closed spec fn entries(&self) -> Map<
        (u64, u32, u32, u32, u32, u32, u32),
        Option<(UVec3, UVec3)>,
    > {
        self.entries@
    }

    /// A cache without boxes.
    pub fn new() -> (r: BoundsCache)
        ensures
            r.entries() == Map::<
                (u64, u32, u32, u32, u32, u32, u32),
                Option<(UVec3, UVec3)>,
            >::empty(),
    {
        BoundsCache { entries: BTreeMap::new() }
    }

    /// The box around the voxels of a model that are occupied and shown: the one that was computed
    /// before for the model and the range, whatever has become of the model since, or else the one
    /// that is computed now and kept.
    pub fn dense_geometry_bounds(
        &mut self,
        id: u64,
        geometry: &DenseVoxelGeometry,
        cull_min: UVec3,
        cull_max: UVec3,
    ) -> (r: Option<(UVec3, UVec3)>)
        requires
            geometry.wf(),
        ensures
            old(self).entries().contains_key(bounds_key(id, cull_min, cull_max)) ==> r == old(
                self,
            ).entries()[bounds_key(id, cull_min, cull_max)] && final(self).entries() == old(
                self,
            ).entries(),
            !old(self).entries().contains_key(bounds_key(id, cull_min, cull_max)) ==> is_bounds(
                *geometry,
                cull_min,
                cull_max,
                r,
            ) && final(self).entries() == old(self).entries().insert(
                bounds_key(id, cull_min, cull_max),
                r,
            ),
    {
        broadcast use vstd::std_specs::btree::group_btree_axioms;

        proof {
            lemma_keys_are_ordered();
        }
        let key: (u64, u32, u32, u32, u32, u32, u32) = (
            id,
            cull_min.x,
            cull_min.y,
            cull_min.z,
            cull_max.x,
            cull_max.y,
            cull_max.z,
        );
        if let Some(bounds) = self.entries.get(&key) {
            return *bounds;
        }
        let bounds: Option<(UVec3, UVec3)> = geometry_bounds(geometry, cull_min, cull_max);
        self.entries.insert(key, bounds);
        bounds
    }
}

} // verus!
