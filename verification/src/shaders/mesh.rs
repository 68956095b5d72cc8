//! Which parts of the dense models become clusters of a frame, and where they go.

use super::dense;
use crate::bits;
use crate::dense::layout;
use crate::math;
use crate::math::UVec3;
use crate::math::UVec4;
use vstd::prelude::*;

verus! {

/// The handles that the mesh shader is called with.
#[derive(Clone, Copy, Debug, PartialEq, Eq, Structural)]
pub struct MeshPushConstants {
    pub params_handle: u32,
    pub params_index: u32,
    pub clusters_handle: u32,
    pub indirect_handle: u32,
}

/// The counts, handles and ranges of a frame, a draw or an instance.
#[derive(Clone, Copy, Debug, PartialEq, Eq, Structural)]
pub struct RenderParams {
    pub mesh_params: UVec4,
    pub resource_handles: UVec4,
    pub cull_min: UVec4,
    pub cull_max: UVec4,
}

/// The smallest of the voxels that are shown.
pub fn cull_min(params: &RenderParams) -> (r: UVec3)
    ensures
        r == min_shown(*params),
{
    UVec3 { x: params.cull_min.x, y: params.cull_min.y, z: params.cull_min.z }
}

/// What lies just past the largest of the voxels that are shown.
pub fn cull_max(params: &RenderParams) -> (r: UVec3)
    ensures
        r == max_shown(*params),
{
    UVec3 { x: params.cull_max.x, y: params.cull_max.y, z: params.cull_max.z }
}

/// The smallest of the voxels that are shown.
pub open spec fn min_shown(params: RenderParams) -> UVec3 {
    UVec3 { x: params.cull_min.x, y: params.cull_min.y, z: params.cull_min.z }
}

/// What lies just past the largest of the voxels that are shown.
pub open spec fn max_shown(params: RenderParams) -> UVec3 {
    UVec3 { x: params.cull_max.x, y: params.cull_max.y, z: params.cull_max.z }
}

/// Whether a voxel is shown.
pub open spec fn shown(params: RenderParams, voxel: UVec3) -> bool {
    &&& params.cull_min.x <= voxel.x < params.cull_max.x
    &&& params.cull_min.y <= voxel.y < params.cull_max.y
    &&& params.cull_min.z <= voxel.z < params.cull_max.z
}

/// Whether a voxel lies in the cube with its smallest voxel at `min`.
pub open spec fn in_cube(voxel: UVec3, min: UVec3, size: u32) -> bool {
    &&& min.x <= voxel.x < min.x + size
    &&& min.y <= voxel.y < min.y + size
    &&& min.z <= voxel.z < min.z + size
}

/// Whether the coordinates past a cube can be told.
pub open spec fn cube_fits(min: UVec3, size: u32) -> bool {
    &&& min.x + size <= u32::MAX
    &&& min.y + size <= u32::MAX
    &&& min.z + size <= u32::MAX
}

/// Whether the ranges of a cube and of what is shown overlap along each axis.
pub open spec fn overlaps(params: RenderParams, min: UVec3, size: u32) -> bool {
    &&& min.x + size > params.cull_min.x && min.x < params.cull_max.x
    &&& min.y + size > params.cull_min.y && min.y < params.cull_max.y
    &&& min.z + size > params.cull_min.z && min.z < params.cull_max.z
}

/// Whether the range of a cube lies in that of what is shown, along each axis.
pub open spec fn contained(params: RenderParams, min: UVec3, size: u32) -> bool {
    &&& params.cull_min.x <= min.x && min.x + size <= params.cull_max.x
    &&& params.cull_min.y <= min.y && min.y + size <= params.cull_max.y
    &&& params.cull_min.z <= min.z && min.z + size <= params.cull_max.z
}

/// Whether a voxel is shown.
pub fn voxel_in_cull_range(params: &RenderParams, voxel: UVec3) -> (r: bool)
    ensures
        r == shown(*params, voxel),
        r <==> {
            &&& params.cull_min.x <= voxel.x < params.cull_max.x
            &&& params.cull_min.y <= voxel.y < params.cull_max.y
            &&& params.cull_min.z <= voxel.z < params.cull_max.z
        },
{
    let min: UVec3 = cull_min(params);
    let max: UVec3 = cull_max(params);
    voxel.x >= min.x && voxel.y >= min.y && voxel.z >= min.z && voxel.x < max.x && voxel.y < max.y
        && voxel.z < max.z
}

/// Whether the ranges of a cube and of what is shown overlap along each axis.
pub fn range_intersects_cull(params: &RenderParams, min: UVec3, size: u32) -> (r: bool)
    requires
        cube_fits(min, size),
    ensures
        r == overlaps(*params, min, size),
        r <==> {
            &&& params.cull_min.x < min.x + size && min.x < params.cull_max.x
            &&& params.cull_min.y < min.y + size && min.y < params.cull_max.y
            &&& params.cull_min.z < min.z + size && min.z < params.cull_max.z
        },
{
    let max: UVec3 = UVec3 { x: min.x + size, y: min.y + size, z: min.z + size };
    let cull_min: UVec3 = cull_min(params);
    let cull_max: UVec3 = cull_max(params);
    max.x > cull_min.x && max.y > cull_min.y && max.z > cull_min.z && min.x < cull_max.x && min.y
        < cull_max.y && min.z < cull_max.z
}

/// Whether the range of a cube lies in that of what is shown, along each axis.
pub fn range_contained_by_cull(params: &RenderParams, min: UVec3, size: u32) -> (r: bool)
    requires
        cube_fits(min, size),
    ensures
        r == contained(*params, min, size),
        r <==> {
            &&& params.cull_min.x <= min.x && min.x + size <= params.cull_max.x
            &&& params.cull_min.y <= min.y && min.y + size <= params.cull_max.y
            &&& params.cull_min.z <= min.z && min.z + size <= params.cull_max.z
        },
{
    let max: UVec3 = UVec3 { x: min.x + size, y: min.y + size, z: min.z + size };
    let cull_min: UVec3 = cull_min(params);
    let cull_max: UVec3 = cull_max(params);
    min.x >= cull_min.x && min.y >= cull_min.y && min.z >= cull_min.z && max.x <= cull_max.x
        && max.y <= cull_max.y && max.z <= cull_max.z
}

/// A voxel of a cube that is shown lies where the ranges overlap, and every voxel of a cube that
/// is contained is shown.
pub proof fn law_cull_ranges(params: RenderParams, min: UVec3, size: u32, voxel: UVec3)
    requires
        in_cube(voxel, min, size),
    ensures
        shown(params, voxel) ==> overlaps(params, min, size),
        contained(params, min, size) ==> shown(params, voxel),
{
}

/// Where something is shown along each axis, the range of a cube overlaps that of what is shown just
/// where a voxel of the cube is shown, and it is contained just where every voxel of the cube is.
pub proof fn law_ranges_tell_voxels(params: RenderParams, min: UVec3, size: u32)
    requires
        size > 0,
        cube_fits(min, size),
        params.cull_min.x < params.cull_max.x,
        params.cull_min.y < params.cull_max.y,
        params.cull_min.z < params.cull_max.z,
    ensures
        overlaps(params, min, size) <==> exists|voxel: UVec3|
            #[trigger] shown_in_cube(params, min, size, voxel),
        contained(params, min, size) <==> forall|voxel: UVec3|
            {
                &&& min.x <= voxel.x < min.x + size
                &&& min.y <= voxel.y < min.y + size
                &&& min.z <= voxel.z < min.z + size
            } ==> #[trigger] shown_in_cube(params, min, size, voxel),
{
    let low = UVec3 {
        x: math::max_of(min.x, params.cull_min.x),
        y: math::max_of(min.y, params.cull_min.y),
        z: math::max_of(min.z, params.cull_min.z),
    };
    let far = UVec3 {
        x: (min.x + size - 1) as u32,
        y: (min.y + size - 1) as u32,
        z: (min.z + size - 1) as u32,
    };
    if overlaps(params, min, size) {
        assert(shown_in_cube(params, min, size, low));
    }
    if forall|voxel: UVec3|
        {
            &&& min.x <= voxel.x < min.x + size
            &&& min.y <= voxel.y < min.y + size
            &&& min.z <= voxel.z < min.z + size
        } ==> #[trigger] shown_in_cube(params, min, size, voxel) {
        assert(shown_in_cube(params, min, size, min));
        assert(shown_in_cube(params, min, size, far));
    }
}

/// Whether a voxel lies in a cube and in the range of what is shown.
pub open spec fn shown_in_cube(params: RenderParams, min: UVec3, size: u32, voxel: UVec3) -> bool {
    &&& min.x <= voxel.x < min.x + size && params.cull_min.x <= voxel.x < params.cull_max.x
    &&& min.y <= voxel.y < min.y + size && params.cull_min.y <= voxel.y < params.cull_max.y
    &&& min.z <= voxel.z < min.z + size && params.cull_min.z <= voxel.z < params.cull_max.z
}

/// The bit of a voxel in the occupancy word of its block.
pub fn voxel_id(voxel: UVec3) -> (r: u32)
    requires
        dense::in_block(voxel),
    ensures
        r == dense::local_of(voxel),
        r < 64,
{
    dense::local_index(voxel)
}

/// Whether a voxel's bit is set in the occupancy word of its block.
pub fn occupied(mask: u64, voxel: UVec3) -> (r: bool)
    requires
        dense::in_block(voxel),
    ensures
        r == bits::bit64(mask, dense::local_of(voxel) as u64),
{
    dense::occupancy_bit(mask, voxel)
}

proof fn lemma_packed_size(x: u32, y: u32, z: u32, packed: u32)
    by (bit_vector)
    requires
        x < 1024,
        y < 1024,
        z < 1024,
        packed == x | (y << 10) | (z << 20),
    ensures
        packed == x + y * 1024 + z * 1048576,
{
}

proof fn lemma_unpacked_size(packed: u32)
    by (bit_vector)
    ensures
        packed & 1023 == packed % 1024,
        (packed >> 10) & 1023 == (packed / 1024) % 1024,
        (packed >> 20) & 1023 == (packed / 1048576) % 1024,
{
}

/// A size in one number: ten bits for each axis, less one.
pub open spec fn packed_size(size: [u32; 3]) -> int {
    (size@[0] - 1) + (size@[1] - 1) * 1024 + (size@[2] - 1) * 1048576
}

/// The size that a number stands for.
pub open spec fn unpacked_size(packed: u32) -> UVec3 {
    UVec3 {
        x: (packed % 1024 + 1) as u32,
        y: ((packed / 1024) % 1024 + 1) as u32,
        z: ((packed / 1048576) % 1024 + 1) as u32,
    }
}

/// Whether a size can be written in one number.
pub open spec fn packable(size: [u32; 3]) -> bool {
    &&& 1 <= size@[0] <= 1024
    &&& 1 <= size@[1] <= 1024
    &&& 1 <= size@[2] <= 1024
}

/// Writes a size in one number.
pub fn pack_dense_size(size: [u32; 3]) -> (r: u32)
    requires
        packable(size),
    ensures
        r == packed_size(size),
{
    let x: u32 = size[0] - 1;
    let y: u32 = size[1] - 1;
    let z: u32 = size[2] - 1;
    proof {
        lemma_packed_size(x, y, z, x | (y << 10) | (z << 20));
    }
    x | (y << 10) | (z << 20)
}

/// The size that a number stands for.
pub fn unpack_dense_size(packed: u32) -> (r: UVec3)
    ensures
        r == unpacked_size(packed),
{
    proof {
        lemma_unpacked_size(packed);
    }
    UVec3 {
        x: (packed & 1023) + 1,
        y: ((packed >> 10) & 1023) + 1,
        z: ((packed >> 20) & 1023) + 1,
    }
}

/// Reading a size back gives the size that was written.
pub proof fn law_dense_size(size: [u32; 3], packed: u32)
    requires
        packable(size),
        packed == packed_size(size),
    ensures
        dense::coords(unpacked_size(packed)) == size,
{
    let x = size@[0] - 1;
    let y = size@[1] - 1;
    let z = size@[2] - 1;
    assert(packed % 1024 == x);
    assert(packed / 1024 == y + z * 1024);
    assert(packed / 1048576 == z);
    assert(dense::coords(unpacked_size(packed)) =~= size);
}

/// The coordinates of the block at a position.
pub fn dense_block_coords(index: u32, block_extent: UVec3) -> (r: UVec3)
    requires
        block_extent.x > 0,
        block_extent.y > 0,
    ensures
        r.x == index as int % block_extent.x as int,
        r.y == (index as int / block_extent.x as int) % block_extent.y as int,
        r.z == (index as int / block_extent.x as int) / block_extent.y as int,
{
    let x: u32 = index % block_extent.x;
    let yz: u32 = index / block_extent.x;
    let y: u32 = yz % block_extent.y;
    let z: u32 = yz / block_extent.y;
    UVec3 { x, y, z }
}

/// The position of a block that lies inside the extents.
pub fn dense_storage_block_index(block: UVec3, block_extent: UVec3) -> (r: u32)
    requires
        dense::inside(block, block_extent),
        block_extent.x * block_extent.y * block_extent.z <= u32::MAX,
    ensures
        r == layout::linear_index(
            block.x as int,
            block.y as int,
            block.z as int,
            block_extent.x as int,
            block_extent.y as int,
        ),
        r < block_extent.x * block_extent.y * block_extent.z,
{
    dense::block_index(block, block_extent) as u32
}

/// The position of the block with the coordinates of a position is that position.
pub proof fn law_block_coords(index: u32, block_extent: UVec3)
    requires
        block_extent.x > 0,
        block_extent.y > 0,
        index < block_extent.x * block_extent.y * block_extent.z,
    ensures
        ({
            let x = index as int % block_extent.x as int;
            let y = (index as int / block_extent.x as int) % block_extent.y as int;
            let z = (index as int / block_extent.x as int) / block_extent.y as int;
            &&& 0 <= x < block_extent.x
            &&& 0 <= y < block_extent.y
            &&& 0 <= z < block_extent.z
            &&& layout::linear_index(x, y, z, block_extent.x as int, block_extent.y as int) == index
        }),
{
    if block_extent.z == 0 {
        assert(block_extent.x * block_extent.y * block_extent.z == 0) by (nonlinear_arith)
            requires
                block_extent.z == 0,
        ;
    }
    layout::lemma_linear_cover(
        index as int,
        block_extent.x as int,
        block_extent.y as int,
        block_extent.z as int,
    );
}

/// The material that a reference tells for a voxel of its block, material 0 where there is none.
pub open spec fn shown_material(material_ref: u32, pages: Seq<u8>, local: int) -> u32 {
    if material_ref == dense::EMPTY_MATERIAL_REF {
        0
    } else {
        dense::local_material(material_ref, pages, local)
    }
}

/// The material that a reference tells for a voxel of its block, material 0 where there is none.
pub fn dense_material_id(material_pages: &[u8], material_ref: u32, local_voxel: UVec3) -> (r: u32)
    requires
        dense::in_block(local_voxel),
        dense::page_readable(material_ref, material_pages@),
    ensures
        r == shown_material(material_ref, material_pages@, dense::local_of(local_voxel)),
        r <= 255,
{
    if material_ref == dense::EMPTY_MATERIAL_REF {
        return 0;
    }
    proof {
        layout::lemma_flag_bits(material_ref);
        layout::lemma_low_byte(material_ref);
    }
    if (material_ref & dense::MATERIAL_PAGE_FLAG) == 0 {
        return material_ref & 255;
    }
    let page_index: u32 = material_ref & dense::MATERIAL_PAGE_MASK;
    material_pages[(page_index * 64 + voxel_id(local_voxel)) as usize] as u32
}

/// The place of a material among the parameters of the materials.
pub fn dense_material_index(material_id: u32) -> (r: usize)
    ensures
        r == math::min_of(material_id, 255),
{
    if material_id <= 255 {
        material_id as usize
    } else {
        255
    }
}

/// Voxel `k` of a cube, counted along the third axis first and the first axis last.
pub open spec fn cube_voxel(min: UVec3, size: u32, k: int) -> UVec3 {
    UVec3 {
        x: (min.x + k / (size * size)) as u32,
        y: (min.y + (k / size as int) % size as int) as u32,
        z: (min.z + k % size as int) as u32,
    }
}

/// Whether a voxel is one that adds to a cluster: it lies in the model, is shown and is occupied.
pub open spec fn counts(params: RenderParams, occupancy: Seq<u64>, size: UVec3, voxel: UVec3) -> bool {
    &&& layout::in_bounds(dense::coords(voxel), dense::coords(size))
    &&& shown(params, voxel)
    &&& bits::bit64(
        occupancy[layout::block_of(dense::coords(voxel), dense::coords(size))],
        layout::local_of(dense::coords(voxel)) as u64,
    )
}

/// The materials of the first `n` voxels of a cube that add to a cluster.
pub open spec fn cube_materials(
    params: RenderParams,
    occupancy: Seq<u64>,
    refs: Seq<u32>,
    pages: Seq<u8>,
    size: UVec3,
    group_min: UVec3,
    group_size: u32,
    n: int,
) -> Seq<u32>
    decreases n,
{
    if n <= 0 {
        Seq::empty()
    } else {
        let before = cube_materials(
            params,
            occupancy,
            refs,
            pages,
            size,
            group_min,
            group_size,
            n - 1,
        );
        let voxel = cube_voxel(group_min, group_size, n - 1);
        if counts(params, occupancy, size, voxel) {
            before.push(
                shown_material(
                    refs[layout::block_of(dense::coords(voxel), dense::coords(size))],
                    pages,
                    layout::local_of(dense::coords(voxel)),
                ),
            )
        } else {
            before
        }
    }
}

/// The blocks that cover a size along each axis.
pub open spec fn blocks_of(size: UVec3) -> UVec3 {
    UVec3 {
        x: layout::axis_blocks(size.x) as u32,
        y: layout::axis_blocks(size.y) as u32,
        z: layout::axis_blocks(size.z) as u32,
    }
}

/// Whether the parts of a model of the given size can be read.
pub open spec fn size_readable(
    size: UVec3,
    occupancy: Seq<u64>,
    refs: Seq<u32>,
    pages: Seq<u8>,
) -> bool {
    &&& size.x <= 1024
    &&& size.y <= 1024
    &&& size.z <= 1024
    &&& layout::block_count_spec(dense::coords(size)) <= occupancy.len()
    &&& layout::block_count_spec(dense::coords(size)) <= refs.len()
    &&& forall|b: int|
        0 <= b < layout::block_count_spec(dense::coords(size)) && #[trigger] occupancy[b] != 0
            ==> dense::page_readable(refs[b], pages)
}

proof fn lemma_cube_index(size: int, x: int, y: int, z: int)
    requires
        0 < size,
        0 <= x < size,
        0 <= y < size,
        0 <= z < size,
    ensures
        ({
            let k = (x * size + y) * size + z;
            &&& k / (size * size) == x
            &&& (k / size) % size == y
            &&& k % size == z
            &&& 0 <= k < size * size * size
        }),
{
    let k = (x * size + y) * size + z;
    let q = x * size + y;
    vstd::arithmetic::div_mod::lemma_fundamental_div_mod_converse(k, size, q, z);
    vstd::arithmetic::div_mod::lemma_fundamental_div_mod_converse(q, size, x, y);
    assert(k == x * (size * size) + (y * size + z)) by (nonlinear_arith)
        requires
            k == (x * size + y) * size + z,
    ;
    assert(0 <= y * size + z < size * size) by (nonlinear_arith)
        requires
            0 <= y < size,
            0 <= z < size,
    ;
    vstd::arithmetic::div_mod::lemma_fundamental_div_mod_converse(
        k,
        size * size,
        x,
        y * size + z,
    );
    assert(0 <= k < size * size * size) by (nonlinear_arith)
        requires
            k == x * (size * size) + (y * size + z),
            0 <= y * size + z < size * size,
            0 <= x < size,
    ;
}

/// The number of blocks of a model whose axes are no longer than 1024 can be told.
pub proof fn lemma_small_blocks(size: UVec3)
    requires
        size.x <= 1024,
        size.y <= 1024,
        size.z <= 1024,
    ensures
        layout::block_count_spec(dense::coords(size)) <= 16777216,
{
    let a = layout::axis_blocks(size.x);
    let b = layout::axis_blocks(size.y);
    let c = layout::axis_blocks(size.z);
    assert(a * b <= 65536) by (nonlinear_arith)
        requires
            0 <= a <= 256,
            0 <= b <= 256,
    ;
    assert(a * b * c <= 65536 * 256) by (nonlinear_arith)
        requires
            0 <= a * b <= 65536,
            0 <= c <= 256,
    ;
}

/// The material of the voxel at `voxel`, where it adds to a cluster.
fn counted_material(
    params: &RenderParams,
    occupancy: &[u64],
    material_refs: &[u32],
    material_pages: &[u8],
    dense_size: UVec3,
    voxel: UVec3,
) -> (r: Option<u32>)
    requires
        size_readable(dense_size, occupancy@, material_refs@, material_pages@),
    ensures
        r == (if counts(*params, occupancy@, dense_size, voxel) {
            Some(
                shown_material(
                    material_refs@[layout::block_of(
                        dense::coords(voxel),
                        dense::coords(dense_size),
                    )],
                    material_pages@,
                    layout::local_of(dense::coords(voxel)),
                ),
            )
        } else {
            None
        }),
{
    if voxel.x < dense_size.x && voxel.y < dense_size.y && voxel.z < dense_size.z
        && voxel_in_cull_range(params, voxel) {
        let block_extent: UVec3 = UVec3 {
            x: (dense_size.x + 3) / 4,
            y: (dense_size.y + 3) / 4,
            z: (dense_size.z + 3) / 4,
        };
        let block: UVec3 = dense::voxel_block(voxel);
        let local_voxel: UVec3 = dense::voxel_local(voxel);
        proof {
            lemma_small_blocks(dense_size);
            layout::lemma_block_of_bound(dense::coords(voxel), dense::coords(dense_size));
        }
        let block_index: u32 = dense_storage_block_index(block, block_extent);
        let word: u64 = occupancy[block_index as usize];
        if occupied(word, local_voxel) {
            proof {
                bits::lemma_bit64_zero(dense::local_of(local_voxel) as u64);
            }
            let material_ref: u32 = material_refs[block_index as usize];
            return Some(dense_material_id(material_pages, material_ref, local_voxel));
        }
    }
    None
}

/// The materials of the voxels of a cube that add to a cluster.
pub fn group_materials(
    params: &RenderParams,
    occupancy: &[u64],
    material_refs: &[u32],
    material_pages: &[u8],
    dense_size: UVec3,
    group_min: UVec3,
    group_size: u32,
) -> (r: Vec<u32>)
    requires
        size_readable(dense_size, occupancy@, material_refs@, material_pages@),
        0 < group_size <= 16,
        cube_fits(group_min, group_size),
    ensures
        r@ == cube_materials(
            *params,
            occupancy@,
            material_refs@,
            material_pages@,
            dense_size,
            group_min,
            group_size,
            group_size * group_size * group_size,
        ),
{
    let mut materials: Vec<u32> = Vec::new();
    let ghost g = group_size as int;
    assert(g * g * g == (g * g) * g);
    let mut x: u32 = 0;
    while x < group_size
        invariant
            x <= group_size <= 16,
            g == group_size,
            0 < g,
            cube_fits(group_min, group_size),
            size_readable(dense_size, occupancy@, material_refs@, material_pages@),
            materials@ == cube_materials(
                *params,
                occupancy@,
                material_refs@,
                material_pages@,
                dense_size,
                group_min,
                group_size,
                (x * g) * g,
            ),
        decreases group_size - x,
    {
        let mut y: u32 = 0;
        assert((x * g + 0) * g == (x * g) * g);
        while y < group_size
            invariant
                x < group_size <= 16,
                y <= group_size,
                g == group_size,
                0 < g,
                cube_fits(group_min, group_size),
                size_readable(dense_size, occupancy@, material_refs@, material_pages@),
                materials@ == cube_materials(
                    *params,
                    occupancy@,
                    material_refs@,
                    material_pages@,
                    dense_size,
                    group_min,
                    group_size,
                    (x * g + y) * g,
                ),
            decreases group_size - y,
        {
            let mut z: u32 = 0;
            while z < group_size
                invariant
                    x < group_size <= 16,
                    y < group_size,
                    z <= group_size,
                    g == group_size,
                    0 < g,
                    cube_fits(group_min, group_size),
                    size_readable(dense_size, occupancy@, material_refs@, material_pages@),
                    materials@ == cube_materials(
                        *params,
                        occupancy@,
                        material_refs@,
                        material_pages@,
                        dense_size,
                        group_min,
                        group_size,
                        (x * g + y) * g + z,
                    ),
                decreases group_size - z,
            {
                let voxel: UVec3 = UVec3 { x: group_min.x + x, y: group_min.y + y, z: group_min.z + z };
                proof {
                    lemma_cube_index(g, x as int, y as int, z as int);
                    assert(voxel == cube_voxel(group_min, group_size, (x * g + y) * g + z));
                }
                if let Some(material) = counted_material(
                    params,
                    occupancy,
                    material_refs,
                    material_pages,
                    dense_size,
                    voxel,
                ) {
                    materials.push(material);
                }
                z += 1;
            }
            assert((x * g + y) * g + g == (x * g + (y + 1)) * g) by (nonlinear_arith);
            y += 1;
        }
        assert((x * g + g) * g == ((x + 1) * g) * g) by (nonlinear_arith);
        x += 1;
    }
    materials
}

/// The materials that a cluster for a cube is made of, where there is anything to show.
pub fn emit_dense_group(
    params: &RenderParams,
    occupancy: &[u64],
    material_refs: &[u32],
    material_pages: &[u8],
    dense_size: UVec3,
    group_min: UVec3,
    group_size: u32,
) -> (r: Option<Vec<u32>>)
    requires
        size_readable(dense_size, occupancy@, material_refs@, material_pages@),
        0 < group_size <= 16,
        cube_fits(group_min, group_size),
    ensures
        ({
            let materials = cube_materials(
                *params,
                occupancy@,
                material_refs@,
                material_pages@,
                dense_size,
                group_min,
                group_size,
                group_size * group_size * group_size,
            );
            &&& r is Some <==> materials.len() > 0
            &&& r matches Some(found) ==> found@ == materials
        }),
{
    if !range_intersects_cull(params, group_min, group_size) {
        proof {
            law_outside_cull_is_empty(
                *params,
                occupancy@,
                material_refs@,
                material_pages@,
                dense_size,
                group_min,
                group_size,
                group_size * group_size * group_size,
            );
        }
        return None;
    }
    let materials: Vec<u32> = group_materials(
        params,
        occupancy,
        material_refs,
        material_pages,
        dense_size,
        group_min,
        group_size,
    );
    if materials.len() == 0 {
        return None;
    }
    Some(materials)
}

/// Whether a voxel of a cube stands for something that is shown: it lies in the cube and in the
/// model, is one of those that are shown, and its bit is set in the word of its block. Blocks have
/// four voxels along each axis, and the first axis comes first in both.
pub open spec fn stands_in_cube(
    params: RenderParams,
    occupancy: Seq<u64>,
    size: UVec3,
    group_min: UVec3,
    group_size: u32,
    voxel: UVec3,
) -> bool {
    let across = (size.x + 3) / 4;
    let up = (size.y + 3) / 4;
    let word = occupancy[voxel.x / 4 + voxel.y / 4 * across + voxel.z / 4 * across * up];
    &&& group_min.x <= voxel.x < group_min.x + group_size
    &&& group_min.y <= voxel.y < group_min.y + group_size
    &&& group_min.z <= voxel.z < group_min.z + group_size
    &&& voxel.x < size.x && voxel.y < size.y && voxel.z < size.z
    &&& params.cull_min.x <= voxel.x < params.cull_max.x
    &&& params.cull_min.y <= voxel.y < params.cull_max.y
    &&& params.cull_min.z <= voxel.z < params.cull_max.z
    &&& (word >> ((voxel.x % 4 + voxel.y % 4 * 4 + voxel.z % 4 * 16) as u64)) & 1 == 1
}

/// Whether a voxel comes before another, by the first axis, then the second, then the third.
pub open spec fn comes_before(a: UVec3, b: UVec3) -> bool {
    a.x < b.x || (a.x == b.x && (a.y < b.y || (a.y == b.y && a.z < b.z)))
}

/// Whether a number is the material of a voxel: no material where the reference of its block is
/// that of an empty block, the lowest byte of a reference without the page flag, and else the
/// voxel's byte of the page.
pub open spec fn is_material_of(
    refs: Seq<u32>,
    pages: Seq<u8>,
    size: UVec3,
    voxel: UVec3,
    material: u32,
) -> bool {
    let across = (size.x + 3) / 4;
    let up = (size.y + 3) / 4;
    let material_ref = refs[voxel.x / 4 + voxel.y / 4 * across + voxel.z / 4 * across * up];
    let local = voxel.x % 4 + voxel.y % 4 * 4 + voxel.z % 4 * 16;
    &&& material_ref == 0xffff_ffff ==> material == 0
    &&& material_ref < 0x8000_0000 ==> material == material_ref % 256
    &&& 0x8000_0000 <= material_ref < 0xffff_ffff ==> material == pages[(material_ref - 0x8000_0000)
        * 64 + local]
}

/// The materials of a cube are those of the voxels in it that are shown, of which `voxels` lists
/// each once and in order, whatever the side of the cube. So a cube becomes a cluster just where
/// there is such a voxel.
pub proof fn law_cube_materials(
    params: RenderParams,
    occupancy: Seq<u64>,
    refs: Seq<u32>,
    pages: Seq<u8>,
    size: UVec3,
    group_min: UVec3,
    group_size: u32,
) -> (voxels: Seq<UVec3>)
    requires
        0 < group_size,
        cube_fits(group_min, group_size),
    ensures
        ({
            let materials = cube_materials(
                params,
                occupancy,
                refs,
                pages,
                size,
                group_min,
                group_size,
                group_size * group_size * group_size,
            );
            &&& materials.len() == voxels.len()
            &&& forall|i: int|
                0 <= i < voxels.len() ==> is_material_of(
                    refs,
                    pages,
                    size,
                    #[trigger] voxels[i],
                    materials[i],
                )
        }),
        forall|voxel: UVec3|
            #[trigger] voxels.contains(voxel) <==> stands_in_cube(
                params,
                occupancy,
                size,
                group_min,
                group_size,
                voxel,
            ),
        forall|i: int, j: int|
            0 <= i < j < voxels.len() ==> comes_before(#[trigger] voxels[i], #[trigger] voxels[j]),
{
    let g = group_size as int;
    let n = group_size * group_size * group_size;
    assert(0 <= n) by (nonlinear_arith)
        requires
            n == group_size * group_size * group_size,
    ;
    let places = lemma_counted_places(
        params,
        occupancy,
        refs,
        pages,
        size,
        group_min,
        group_size,
        n,
    );
    let voxels = places.map_values(|k: int| cube_voxel(group_min, group_size, k));
    assert forall|voxel: UVec3|
        #[trigger] voxels.contains(voxel) <==> stands_in_cube(
            params,
            occupancy,
            size,
            group_min,
            group_size,
            voxel,
        ) by {
        if voxels.contains(voxel) {
            let i = choose|i: int| 0 <= i < voxels.len() && voxels[i] == voxel;
            lemma_cube_place(group_min, group_size, places[i]);
        }
        if stands_in_cube(params, occupancy, size, group_min, group_size, voxel) {
            let x = voxel.x - group_min.x;
            let y = voxel.y - group_min.y;
            let z = voxel.z - group_min.z;
            lemma_cube_index(g, x, y, z);
            let k = (x * g + y) * g + z;
            assert(cube_voxel(group_min, group_size, k) == voxel);
            assert(counts(params, occupancy, size, voxel));
            assert(places.contains(k));
            let i = choose|i: int| 0 <= i < places.len() && places[i] == k;
            assert(voxels[i] == voxel);
        }
    }
    assert forall|i: int, j: int| 0 <= i < j < voxels.len() implies comes_before(
        #[trigger] voxels[i],
        #[trigger] voxels[j],
    ) by {
        lemma_cube_place(group_min, group_size, places[i]);
        lemma_cube_place(group_min, group_size, places[j]);
        let a = voxels[i];
        let b = voxels[j];
        let q = (a.x - group_min.x) * g + (a.y - group_min.y);
        let r = (b.x - group_min.x) * g + (b.y - group_min.y);
        assert(q > r ==> q * g >= r * g + g) by (nonlinear_arith)
            requires
                g > 0,
        ;
        assert(q < r ==> r * g >= q * g + g) by (nonlinear_arith)
            requires
                g > 0,
        ;
        assert(q <= r);
        assert(a.x > b.x ==> (a.x - group_min.x) * g >= (b.x - group_min.x) * g + g)
            by (nonlinear_arith)
            requires
                g > 0,
        ;
        assert(a.x <= b.x);
        assert(a.x == b.x ==> (a.x - group_min.x) * g == (b.x - group_min.x) * g);
    }
    voxels
}

/// The coordinates of voxel `k` of a cube, and how they tell `k`.
proof fn lemma_cube_place(min: UVec3, size: u32, k: int)
    requires
        0 < size,
        cube_fits(min, size),
        0 <= k < size * size * size,
    ensures
        ({
            let g = size as int;
            let voxel = cube_voxel(min, size, k);
            &&& in_cube(voxel, min, size)
            &&& k == ((voxel.x - min.x) * g + (voxel.y - min.y)) * g + (voxel.z - min.z)
        }),
{
    let g = size as int;
    assert(0 < g * g) by (nonlinear_arith)
        requires
            0 < g,
    ;
    assert(k < g * (g * g)) by (nonlinear_arith)
        requires
            k < g * g * g,
    ;
    vstd::arithmetic::div_mod::lemma_div_pos_is_pos(k, g * g);
    vstd::arithmetic::div_mod::lemma_multiply_divide_lt(k, g * g, g);
    vstd::arithmetic::div_mod::lemma_div_denominator(k, g, g);
    vstd::arithmetic::div_mod::lemma_fundamental_div_mod(k, g);
    vstd::arithmetic::div_mod::lemma_fundamental_div_mod(k / g, g);
    vstd::arithmetic::div_mod::lemma_mod_bound(k, g);
    vstd::arithmetic::div_mod::lemma_mod_bound(k / g, g);
    assert(g * (k / g / g) == (k / g / g) * g) by (nonlinear_arith);
    assert(g * (k / g) == (k / g) * g) by (nonlinear_arith);
}

/// Which of the first `n` voxels of a cube add to a cluster, in order.
proof fn lemma_counted_places(
    params: RenderParams,
    occupancy: Seq<u64>,
    refs: Seq<u32>,
    pages: Seq<u8>,
    size: UVec3,
    group_min: UVec3,
    group_size: u32,
    n: int,
) -> (places: Seq<int>)
    requires
        0 <= n,
    ensures
        ({
            let materials = cube_materials(
                params,
                occupancy,
                refs,
                pages,
                size,
                group_min,
                group_size,
                n,
            );
            &&& materials.len() == places.len()
            &&& forall|i: int|
                0 <= i < places.len() ==> 0 <= #[trigger] places[i] < n && counts(
                    params,
                    occupancy,
                    size,
                    cube_voxel(group_min, group_size, places[i]),
                ) && is_material_of(
                    refs,
                    pages,
                    size,
                    cube_voxel(group_min, group_size, places[i]),
                    materials[i],
                )
        }),
        forall|k: int|
            0 <= k < n && counts(
                params,
                occupancy,
                size,
                #[trigger] cube_voxel(group_min, group_size, k),
            ) ==> places.contains(k),
        forall|i: int, j: int|
            0 <= i < j < places.len() ==> #[trigger] places[i] < #[trigger] places[j],
    decreases n,
{
    if n == 0 {
        Seq::empty()
    } else {
        let before = lemma_counted_places(
            params,
            occupancy,
            refs,
            pages,
            size,
            group_min,
            group_size,
            n - 1,
        );
        let voxel = cube_voxel(group_min, group_size, n - 1);
        if counts(params, occupancy, size, voxel) {
            let places = before.push(n - 1);
            assert forall|k: int|
                0 <= k < n && counts(
                    params,
                    occupancy,
                    size,
                    #[trigger] cube_voxel(group_min, group_size, k),
                ) implies places.contains(k) by {
                if k == n - 1 {
                    assert(places[places.len() - 1] == k);
                } else {
                    let i = choose|i: int| 0 <= i < before.len() && before[i] == k;
                    assert(places[i] == k);
                }
            }
            places
        } else {
            before
        }
    }
}

/// A cube whose range does not overlap that of what is shown has nothing to show.
pub proof fn law_outside_cull_is_empty(
    params: RenderParams,
    occupancy: Seq<u64>,
    refs: Seq<u32>,
    pages: Seq<u8>,
    size: UVec3,
    group_min: UVec3,
    group_size: u32,
    n: int,
)
    requires
        !overlaps(params, group_min, group_size),
        cube_fits(group_min, group_size),
        0 < group_size,
        0 <= n <= group_size * group_size * group_size,
    ensures
        cube_materials(params, occupancy, refs, pages, size, group_min, group_size, n).len() == 0,
    decreases n,
{
    if n > 0 {
        law_outside_cull_is_empty(
            params,
            occupancy,
            refs,
            pages,
            size,
            group_min,
            group_size,
            n - 1,
        );
        let g = group_size as int;
        let k = n - 1;
        let voxel = cube_voxel(group_min, group_size, k);
        assert(0 <= k / (g * g) < g && 0 < g * g) by {
            assert(0 < g * g) by (nonlinear_arith)
                requires
                    0 < g,
            ;
            assert(k < g * (g * g)) by (nonlinear_arith)
                requires
                    k < g * g * g,
            ;
            vstd::arithmetic::div_mod::lemma_div_pos_is_pos(k, g * g);
            vstd::arithmetic::div_mod::lemma_multiply_divide_lt(k, g * g, g);
        }
        law_cull_ranges(params, group_min, group_size, voxel);
    }
}

/// The side of a cube that is shown as one cluster, given how far away it is: below which of four
/// growing distances.
pub fn select_lod_group_size(below: [bool; 4]) -> (r: u32)
    ensures
        r == (if below@[0] {
            1int
        } else if below@[1] {
            2
        } else if below@[2] {
            4
        } else if below@[3] {
            8
        } else {
            16
        }),
{
    if below[0] {
        1
    } else if below[1] {
        2
    } else if below[2] {
        4
    } else if below[3] {
        8
    } else {
        16
    }
}

/// Whether a number is the side of a cube that may be shown as one cluster.
pub open spec fn lod_size(size: u32) -> bool {
    size == 1 || size == 2 || size == 4 || size == 8 || size == 16
}

/// The smallest voxel of the cube of side `size` that holds the voxel, where cubes stand on a
/// grid.
pub open spec fn grid_min(voxel: UVec3, size: u32) -> UVec3 {
    UVec3 {
        x: (voxel.x / size * size) as u32,
        y: (voxel.y / size * size) as u32,
        z: (voxel.z / size * size) as u32,
    }
}

fn grid_min_of(voxel: UVec3, size: u32) -> (r: UVec3)
    requires
        size > 0,
    ensures
        r == grid_min(voxel, size),
        r.x <= voxel.x,
        r.y <= voxel.y,
        r.z <= voxel.z,
{
    proof {
        vstd::arithmetic::div_mod::lemma_fundamental_div_mod(voxel.x as int, size as int);
        vstd::arithmetic::div_mod::lemma_fundamental_div_mod(voxel.y as int, size as int);
        vstd::arithmetic::div_mod::lemma_fundamental_div_mod(voxel.z as int, size as int);
        assert(voxel.x / size * size == size * (voxel.x / size)) by (nonlinear_arith);
        assert(voxel.y / size * size == size * (voxel.y / size)) by (nonlinear_arith);
        assert(voxel.z / size * size == size * (voxel.z / size)) by (nonlinear_arith);
    }
    UVec3 { x: voxel.x / size * size, y: voxel.y / size * size, z: voxel.z / size * size }
}

/// The side of the cubes that a block is shown in: single voxels where the cube that holds the
/// block is not shown whole.
pub open spec fn group_size_of(params: RenderParams, block_origin: UVec3, lod: u32) -> u32 {
    if contained(params, grid_min(block_origin, lod), lod) {
        lod
    } else {
        1
    }
}

/// The side of the cubes that a block is shown in.
pub fn block_group_size(params: &RenderParams, block_origin: UVec3, lod: u32) -> (r: u32)
    requires
        lod_size(lod),
        cube_fits(block_origin, 16),
    ensures
        r == group_size_of(*params, block_origin, lod),
        lod_size(r),
{
    let coarse_group_min: UVec3 = grid_min_of(block_origin, lod);
    if !range_contained_by_cull(params, coarse_group_min, lod) {
        1
    } else {
        lod
    }
}

/// A block is shown in cubes of the side that is wished for just where every voxel of the cube of
/// that side that holds the smallest voxel of the block is shown, and else voxel by voxel. Such
/// cubes stand on a grid: voxels are in one cube whose coordinates, divided by the side, agree.
pub proof fn law_group_size(params: RenderParams, block_origin: UVec3, lod: u32)
    requires
        lod_size(lod),
        cube_fits(block_origin, 16),
    ensures
        (forall|voxel: UVec3|
            voxel.x / lod == block_origin.x / lod && voxel.y / lod == block_origin.y / lod
                && voxel.z / lod == block_origin.z / lod ==> #[trigger] shown(params, voxel))
            ==> group_size_of(params, block_origin, lod) == lod,
        !(forall|voxel: UVec3|
            voxel.x / lod == block_origin.x / lod && voxel.y / lod == block_origin.y / lod
                && voxel.z / lod == block_origin.z / lod ==> #[trigger] shown(params, voxel))
            ==> group_size_of(params, block_origin, lod) == 1,
{
    let min = grid_min(block_origin, lod);
    let far = UVec3 {
        x: (min.x + lod - 1) as u32,
        y: (min.y + lod - 1) as u32,
        z: (min.z + lod - 1) as u32,
    };
    lemma_grid_axis(block_origin.x, lod, min.x);
    lemma_grid_axis(block_origin.y, lod, min.y);
    lemma_grid_axis(block_origin.z, lod, min.z);
    lemma_grid_axis(block_origin.x, lod, far.x);
    lemma_grid_axis(block_origin.y, lod, far.y);
    lemma_grid_axis(block_origin.z, lod, far.z);
    let whole = forall|voxel: UVec3|
        voxel.x / lod == block_origin.x / lod && voxel.y / lod == block_origin.y / lod && voxel.z
            / lod == block_origin.z / lod ==> #[trigger] shown(params, voxel);
    if whole {
        assert(shown(params, min));
        assert(shown(params, far));
    }
    if contained(params, min, lod) {
        assert forall|voxel: UVec3|
            voxel.x / lod == block_origin.x / lod && voxel.y / lod == block_origin.y / lod && voxel.z
                / lod == block_origin.z / lod implies #[trigger] shown(params, voxel) by {
            lemma_grid_axis(block_origin.x, lod, voxel.x);
            lemma_grid_axis(block_origin.y, lod, voxel.y);
            lemma_grid_axis(block_origin.z, lod, voxel.z);
        }
    }
}

/// Two places along an axis are in one cell of the grid just where the second lies in the cell that
/// starts at the first, rounded down to the grid.
proof fn lemma_grid_axis(a: u32, size: u32, b: u32)
    requires
        lod_size(size),
    ensures
        a / size * size <= a,
        a / size == b / size <==> a / size * size <= b < a / size * size + size,
{
    if size == 1 {
    } else if size == 2 {
    } else if size == 4 {
    } else if size == 8 {
    } else {
    }
}

/// The cubes of side `size` that a block is shown in, by their smallest voxels. Cubes no larger
/// than a block divide it, and there are none where it has no voxels or is not shown. A larger
/// cube is shown with the block at its smallest voxel.
pub open spec fn block_cubes(
    params: RenderParams,
    occupancy: u64,
    block_origin: UVec3,
    size: u32,
) -> Seq<UVec3> {
    if size <= 4 {
        if occupancy == 0 || !overlaps(params, block_origin, 4) {
            Seq::empty()
        } else {
            let m = 4int / size as int;
            Seq::new(
                (m * m * m) as nat,
                |k: int|
                    UVec3 {
                        x: (block_origin.x + k / (m * m) * size) as u32,
                        y: (block_origin.y + k / m % m * size) as u32,
                        z: (block_origin.z + k % m * size) as u32,
                    },
            )
        }
    } else if grid_min(block_origin, size) == block_origin {
        seq![block_origin]
    } else {
        Seq::empty()
    }
}

/// The cubes that a block is shown in, by their smallest voxels.
pub fn block_groups(
    params: &RenderParams,
    occupancy: u64,
    block_origin: UVec3,
    group_size: u32,
) -> (r: Vec<UVec3>)
    requires
        lod_size(group_size),
        cube_fits(block_origin, 16),
    ensures
        r@ == block_cubes(*params, occupancy, block_origin, group_size),
{
    let mut groups: Vec<UVec3> = Vec::new();
    if group_size <= 4 {
        if occupancy == 0 {
            return groups;
        }
        if !range_intersects_cull(params, block_origin, 4) {
            return groups;
        }
        let m: u32 = 4 / group_size;
        let ghost cubes = block_cubes(*params, occupancy, block_origin, group_size);
        assert(m * m * m == 64 || m * m * m == 8 || m * m * m == 1) by (nonlinear_arith)
            requires
                m == 4 || m == 2 || m == 1,
        ;
        let mut x: u32 = 0;
        while x < m
            invariant
                x <= m,
                m == 4u32 / group_size,
                m == 4 || m == 2 || m == 1,
                lod_size(group_size),
                group_size <= 4,
                cube_fits(block_origin, 16),
                cubes.len() == m * m * m,
                cubes == block_cubes(*params, occupancy, block_origin, group_size),
                occupancy != 0,
                overlaps(*params, block_origin, 4),
                groups@ == cubes.take(x * (m * m)),
            decreases m - x,
        {
            let mut y: u32 = 0;
            assert(x * (m * m) + 0 * m == x * (m * m));
            while y < m
                invariant
                    x < m,
                    y <= m,
                    m == 4u32 / group_size,
                    m == 4 || m == 2 || m == 1,
                    lod_size(group_size),
                    group_size <= 4,
                    cube_fits(block_origin, 16),
                    cubes.len() == m * m * m,
                    cubes == block_cubes(*params, occupancy, block_origin, group_size),
                    occupancy != 0,
                    overlaps(*params, block_origin, 4),
                    groups@ == cubes.take(x * (m * m) + y * m),
                decreases m - y,
            {
                let mut z: u32 = 0;
                while z < m
                    invariant
                        x < m,
                        y < m,
                        z <= m,
                        m == 4u32 / group_size,
                        m == 4 || m == 2 || m == 1,
                        lod_size(group_size),
                        group_size <= 4,
                        cube_fits(block_origin, 16),
                        cubes.len() == m * m * m,
                        cubes == block_cubes(*params, occupancy, block_origin, group_size),
                        occupancy != 0,
                        overlaps(*params, block_origin, 4),
                        groups@ == cubes.take(x * (m * m) + y * m + z),
                    decreases m - z,
                {
                    let ghost k = x * (m * m) + y * m + z;
                    proof {
                        lemma_cube_index(m as int, x as int, y as int, z as int);
                        assert((x * m + y) * m + z == k) by (nonlinear_arith)
                            requires
                                k == x * (m * m) + y * m + z,
                        ;
                        assert(x * group_size <= 12 && y * group_size <= 12 && z * group_size <= 12)
                            by (nonlinear_arith)
                            requires
                                x < 4,
                                y < 4,
                                z < 4,
                                group_size <= 4,
                        ;
                    }
                    let group: UVec3 = UVec3 {
                        x: block_origin.x + x * group_size,
                        y: block_origin.y + y * group_size,
                        z: block_origin.z + z * group_size,
                    };
                    assert(group == cubes[k]);
                    groups.push(group);
                    assert(groups@ =~= cubes.take(k + 1));
                    z += 1;
                }
                assert(x * (m * m) + y * m + m == x * (m * m) + (y + 1) * m) by (nonlinear_arith);
                y += 1;
            }
            assert(x * (m * m) + m * m == (x + 1) * (m * m)) by (nonlinear_arith);
            x += 1;
        }
        assert(m * (m * m) == m * m * m) by (nonlinear_arith);
        assert(groups@ =~= cubes);
        return groups;
    }
    let group_min: UVec3 = grid_min_of(block_origin, group_size);
    if group_min != block_origin {
        return groups;
    }
    groups.push(group_min);
    assert(groups@ =~= seq![block_origin]);
    groups
}

/// Cubes no larger than a block divide it: each of its voxels lies in exactly one of them.
pub proof fn law_block_cubes_divide(
    params: RenderParams,
    occupancy: u64,
    block_origin: UVec3,
    size: u32,
    voxel: UVec3,
)
    requires
        size == 1 || size == 2 || size == 4,
        occupancy != 0,
        overlaps(params, block_origin, 4),
        cube_fits(block_origin, 16),
        in_cube(voxel, block_origin, 4),
    ensures
        exists|k: int|
            0 <= k < block_cubes(params, occupancy, block_origin, size).len() && in_cube(
                voxel,
                #[trigger] block_cubes(params, occupancy, block_origin, size)[k],
                size,
            ),
        forall|a: int, b: int|
            0 <= a < block_cubes(params, occupancy, block_origin, size).len() && 0 <= b
                < block_cubes(params, occupancy, block_origin, size).len() && in_cube(
                voxel,
                #[trigger] block_cubes(params, occupancy, block_origin, size)[a],
                size,
            ) && in_cube(
                voxel,
                #[trigger] block_cubes(params, occupancy, block_origin, size)[b],
                size,
            ) ==> a == b,
{
    let cubes = block_cubes(params, occupancy, block_origin, size);
    let m = 4int / size as int;
    let x = (voxel.x - block_origin.x) / size as int;
    let y = (voxel.y - block_origin.y) / size as int;
    let z = (voxel.z - block_origin.z) / size as int;
    let dx = voxel.x - block_origin.x;
    let dy = voxel.y - block_origin.y;
    let dz = voxel.z - block_origin.z;
    assert(m == 4 || m == 2 || m == 1);
    lemma_axis_cell(dx, size as int, x);
    lemma_axis_cell(dy, size as int, y);
    lemma_axis_cell(dz, size as int, z);
    lemma_cube_index(m, x, y, z);
    let k = (x * m + y) * m + z;
    assert(k / (m * m) == x && k / m % m == y && k % m == z);
    assert(cubes.len() == m * m * m) by {
        assert(0 <= m * m * m) by (nonlinear_arith)
            requires
                0 <= m,
        ;
    }
    lemma_cube_at(block_origin, size, m, k, cubes[k]);
    assert(in_cube(voxel, cubes[k], size));
    assert forall|a: int| 0 <= a < cubes.len() && in_cube(voxel, #[trigger] cubes[a], size) implies a
        == k by {
        lemma_cube_at(block_origin, size, m, a, cubes[a]);
        lemma_cube_digits(m, a);
        lemma_axis_cell(dx, size as int, a / (m * m));
        lemma_axis_cell(dy, size as int, a / m % m);
        lemma_axis_cell(dz, size as int, a % m);
    }
}

/// Whether a block is shown in a cube that holds a voxel, given the side of the cubes that is wished
/// for.
pub open spec fn shown_with_block(
    params: RenderParams,
    occupancy: u64,
    block_origin: UVec3,
    lod: u32,
    k: int,
    voxel: UVec3,
) -> bool {
    let size = group_size_of(params, block_origin, lod);
    let cubes = block_cubes(params, occupancy, block_origin, size);
    &&& 0 <= k < cubes.len()
    &&& cubes[k].x <= voxel.x < cubes[k].x + size
    &&& cubes[k].y <= voxel.y < cubes[k].y + size
    &&& cubes[k].z <= voxel.z < cubes[k].z + size
}

/// A voxel that is shown and whose block has voxels is in a cube of one block: of its own, or of the
/// block at the corner of the cube. Told is the block, and the place of the cube among those of the
/// block.
pub proof fn law_voxel_is_in_a_cube(
    params: RenderParams,
    words: spec_fn(UVec3) -> u64,
    lod: u32,
    voxel: UVec3,
) -> (r: (UVec3, int))
    requires
        lod_size(lod),
        voxel.x <= 0x1000_0000 && voxel.y <= 0x1000_0000 && voxel.z <= 0x1000_0000,
        params.cull_min.x <= voxel.x < params.cull_max.x,
        params.cull_min.y <= voxel.y < params.cull_max.y,
        params.cull_min.z <= voxel.z < params.cull_max.z,
        words(grid_min(voxel, 4)) != 0,
    ensures
        r.0.x % 4 == 0 && r.0.y % 4 == 0 && r.0.z % 4 == 0,
        r.0.x <= voxel.x && r.0.y <= voxel.y && r.0.z <= voxel.z,
        shown_with_block(params, words(r.0), r.0, lod, r.1, voxel),
{
    let own = grid_min(voxel, 4);
    lemma_grid_axis(voxel.x, 4, own.x);
    lemma_grid_axis(voxel.y, 4, own.y);
    lemma_grid_axis(voxel.z, 4, own.z);
    let size = group_size_of(params, own, lod);
    if size <= 4 {
        law_cull_ranges(params, own, 4, voxel);
        law_block_cubes_divide(params, words(own), own, size, voxel);
        let cubes = block_cubes(params, words(own), own, size);
        let k = choose|k: int| 0 <= k < cubes.len() && in_cube(voxel, #[trigger] cubes[k], size);
        (own, k)
    } else {
        let corner = grid_min(voxel, size);
        lemma_corner_axis(voxel.x, size);
        lemma_corner_axis(voxel.y, size);
        lemma_corner_axis(voxel.z, size);
        assert(grid_min(own, size) == corner);
        assert(grid_min(corner, size) == corner);
        law_large_cube_has_one_block(params, words(corner), corner, size);
        (corner, 0)
    }
}

/// A voxel is in no more than one cube of all blocks.
pub proof fn law_voxel_is_in_no_other_cube(
    params: RenderParams,
    words: spec_fn(UVec3) -> u64,
    lod: u32,
    voxel: UVec3,
    a: UVec3,
    i: int,
    b: UVec3,
    j: int,
)
    requires
        lod_size(lod),
        cube_fits(a, 16),
        cube_fits(b, 16),
        a.x % 4 == 0 && a.y % 4 == 0 && a.z % 4 == 0,
        b.x % 4 == 0 && b.y % 4 == 0 && b.z % 4 == 0,
        shown_with_block(params, words(a), a, lod, i, voxel),
        shown_with_block(params, words(b), b, lod, j, voxel),
    ensures
        a == b,
        i == j,
{
    lemma_block_of_cube(params, words(a), lod, voxel, a, i);
    lemma_block_of_cube(params, words(b), lod, voxel, b, j);
    assert(a == b);
    let size = group_size_of(params, a, lod);
    let cubes = block_cubes(params, words(a), a, size);
    if size <= 4 {
        assert(in_cube(voxel, cubes[i], size) && in_cube(voxel, cubes[j], size));
        assert(in_cube(voxel, a, 4));
        law_block_cubes_divide(params, words(a), a, size, voxel);
    }
}

/// Which block shows a voxel.
proof fn lemma_block_of_cube(
    params: RenderParams,
    occupancy: u64,
    lod: u32,
    voxel: UVec3,
    block: UVec3,
    k: int,
)
    requires
        lod_size(lod),
        cube_fits(block, 16),
        block.x % 4 == 0 && block.y % 4 == 0 && block.z % 4 == 0,
        shown_with_block(params, occupancy, block, lod, k, voxel),
    ensures
        ({
            let size = if lod > 4 && contained(params, grid_min(voxel, lod), lod) {
                lod
            } else {
                4
            };
            block == grid_min(voxel, size)
        }),
        group_size_of(params, block, lod) <= 4 ==> in_cube(voxel, block, 4),
{
    let size = group_size_of(params, block, lod);
    assert(lod_size(size));
    if size <= 4 {
        lemma_small_cube(params, occupancy, block, size, k, voxel);
        lemma_own_block(voxel, block);
        if lod > 4 {
            lemma_corner_axis(voxel.x, lod);
            lemma_corner_axis(voxel.y, lod);
            lemma_corner_axis(voxel.z, lod);
            assert(grid_min(block, lod) == grid_min(voxel, lod));
        }
    } else {
        law_large_cube_has_one_block(params, occupancy, block, size);
        lemma_large_cube(voxel, block, size);
    }
}

/// A voxel of a cube that is no larger than its block lies in the block.
proof fn lemma_small_cube(
    params: RenderParams,
    occupancy: u64,
    block: UVec3,
    size: u32,
    k: int,
    voxel: UVec3,
)
    requires
        size == 1 || size == 2 || size == 4,
        cube_fits(block, 16),
        0 <= k < block_cubes(params, occupancy, block, size).len(),
        in_cube(voxel, block_cubes(params, occupancy, block, size)[k], size),
    ensures
        in_cube(voxel, block, 4),
{
    let cubes = block_cubes(params, occupancy, block, size);
    let m = 4int / size as int;
    assert(m == 4 || m == 2 || m == 1);
    assert(m * m * m == 64 || m * m * m == 8 || m * m * m == 1) by (nonlinear_arith)
        requires
            m == 4 || m == 2 || m == 1,
    ;
    lemma_cube_at(block, size, m, k, cubes[k]);
    lemma_inside_block(k / (m * m), size, m);
    lemma_inside_block(k / m % m, size, m);
    lemma_inside_block(k % m, size, m);
}

/// A block that holds a voxel is the block of the voxel.
proof fn lemma_own_block(voxel: UVec3, block: UVec3)
    requires
        block.x % 4 == 0 && block.y % 4 == 0 && block.z % 4 == 0,
        in_cube(voxel, block, 4),
    ensures
        grid_min(voxel, 4) == block,
{
}

/// A large cube that holds a voxel is that of the voxel.
proof fn lemma_large_cube(voxel: UVec3, corner: UVec3, size: u32)
    requires
        size == 8 || size == 16,
        corner.x % size == 0 && corner.y % size == 0 && corner.z % size == 0,
        in_cube(voxel, corner, size),
    ensures
        grid_min(voxel, size) == corner,
        grid_min(corner, size) == corner,
{
    if size == 8 {
    } else {
    }
}

/// A cell of a block along an axis ends no later than the block.
proof fn lemma_inside_block(cell: int, size: u32, m: int)
    requires
        size == 1 || size == 2 || size == 4,
        m == 4int / size as int,
        0 <= cell < m,
    ensures
        0 <= cell * size,
        cell * size + size <= 4,
{
    assert(m * size == 4) by (nonlinear_arith)
        requires
            size == 1 && m == 4 || size == 2 && m == 2 || size == 4 && m == 1,
    ;
    assert(cell * size + size <= m * size && 0 <= cell * size) by (nonlinear_arith)
        requires
            0 <= cell,
            cell + 1 <= m,
            size > 0,
    ;
}

/// The corner of a large cube along an axis is that of a block, and both round to it.
proof fn lemma_corner_axis(a: u32, size: u32)
    requires
        size == 8 || size == 16,
    ensures
        a / size * size % 4 == 0,
        a / size * size <= a < a / size * size + size,
        ((a / 4 * 4) as u32) / size == a / size,
        ((a / size * size) as u32) / size == a / size,
        ((a / size * size) as u32) % size == 0,
{
    if size == 8 {
    } else {
    }
}

/// The cubes of a block come in the order of their smallest voxels.
pub proof fn law_block_cubes_in_order(
    params: RenderParams,
    occupancy: u64,
    block_origin: UVec3,
    size: u32,
    i: int,
    j: int,
)
    requires
        lod_size(size),
        cube_fits(block_origin, 16),
        0 <= i < j < block_cubes(params, occupancy, block_origin, size).len(),
    ensures
        comes_before(
            block_cubes(params, occupancy, block_origin, size)[i],
            block_cubes(params, occupancy, block_origin, size)[j],
        ),
{
    if size <= 4 {
        let cubes = block_cubes(params, occupancy, block_origin, size);
        let m = 4int / size as int;
        assert(m * m * m == 64 || m * m * m == 8 || m * m * m == 1) by (nonlinear_arith)
            requires
                m == 4 || m == 2 || m == 1,
        ;
        lemma_cube_at(block_origin, size, m, i, cubes[i]);
        lemma_cube_at(block_origin, size, m, j, cubes[j]);
        lemma_cube_digits(m, i);
        lemma_cube_digits(m, j);
        let (a, b, c) = (i / (m * m), i / m % m, i % m);
        let (d, e, f) = (j / (m * m), j / m % m, j % m);
        lemma_digits_in_order(m, a, b, c, d, e, f);
        assert(a < d ==> a * size < d * size) by (nonlinear_arith)
            requires
                size > 0,
        ;
        assert(b < e ==> b * size < e * size) by (nonlinear_arith)
            requires
                size > 0,
        ;
        assert(c < f ==> c * size < f * size) by (nonlinear_arith)
            requires
                size > 0,
        ;
    }
}

/// Numbers are ordered as their digits are.
proof fn lemma_digits_in_order(m: int, a: int, b: int, c: int, d: int, e: int, f: int)
    requires
        0 < m,
        0 <= b < m,
        0 <= c < m,
        0 <= e < m,
        0 <= f < m,
        (a * m + b) * m + c < (d * m + e) * m + f,
    ensures
        a < d || (a == d && (b < e || (b == e && c < f))),
{
    let q = a * m + b;
    let r = d * m + e;
    assert(q > r ==> q * m >= r * m + m) by (nonlinear_arith)
        requires
            m > 0,
    ;
    assert(a > d ==> a * m >= d * m + m) by (nonlinear_arith)
        requires
            m > 0,
    ;
}

/// A cube larger than a block is shown with the block at its smallest voxel, and with no other: a
/// block has such a cube just where the side divides its coordinates.
pub proof fn law_large_cube_has_one_block(
    params: RenderParams,
    occupancy: u64,
    block_origin: UVec3,
    size: u32,
)
    requires
        size == 8 || size == 16,
        cube_fits(block_origin, 16),
    ensures
        ({
            let cubes = block_cubes(params, occupancy, block_origin, size);
            let at_corner = block_origin.x % size == 0 && block_origin.y % size == 0
                && block_origin.z % size == 0;
            &&& at_corner ==> cubes.len() == 1 && cubes[0] == block_origin
            &&& !at_corner ==> cubes.len() == 0
        }),
{
    if size == 8 {
    } else {
    }
}

/// A block without voxels, or one that does not reach into what is shown, is not shown in cubes
/// that are no larger than it.
pub proof fn law_nothing_to_show(
    params: RenderParams,
    occupancy: u64,
    block_origin: UVec3,
    size: u32,
    voxel: UVec3,
)
    requires
        size == 1 || size == 2 || size == 4,
        in_cube(voxel, block_origin, 4),
        block_cubes(params, occupancy, block_origin, size).len() == 0,
    ensures
        occupancy == 0 || !shown(params, voxel),
{
    let m = 4int / size as int;
    assert(m * m * m == 64 || m * m * m == 8 || m * m * m == 1) by (nonlinear_arith)
        requires
            m == 4 || m == 2 || m == 1,
    ;
}

/// A place along an axis of a block lies in one cell of side `size`.
proof fn lemma_axis_cell(d: int, size: int, cell: int)
    requires
        size == 1 || size == 2 || size == 4,
        0 <= d < 4,
        0 <= cell,
    ensures
        0 <= d / size < 4int / size,
        cell * size <= d < cell * size + size <==> cell == d / size,
{
    if size == 1 {
        assert(cell * 1 == cell);
    } else if size == 2 {
        assert(cell * 2 == cell + cell);
    } else {
        assert(cell * 4 == cell + cell + cell + cell);
    }
}

proof fn lemma_cube_digits(m: int, k: int)
    requires
        m == 4 || m == 2 || m == 1,
        0 <= k < m * m * m,
    ensures
        k == (k / (m * m) * m + k / m % m) * m + k % m,
        0 <= k / (m * m) < m,
        0 <= k / m % m < m,
        0 <= k % m < m,
{
    if m == 4 {
        assert(k / 16 == k / 4 / 4);
    } else if m == 2 {
        assert(k / 4 == k / 2 / 2);
    }
}

proof fn lemma_cube_at(block_origin: UVec3, size: u32, m: int, k: int, cube: UVec3)
    requires
        size == 1 || size == 2 || size == 4,
        m == 4int / size as int,
        0 <= k < m * m * m,
        cube_fits(block_origin, 16),
        cube == (UVec3 {
            x: (block_origin.x + k / (m * m) * size) as u32,
            y: (block_origin.y + k / m % m * size) as u32,
            z: (block_origin.z + k % m * size) as u32,
        }),
    ensures
        cube.x == block_origin.x + k / (m * m) * size,
        cube.y == block_origin.y + k / m % m * size,
        cube.z == block_origin.z + k % m * size,
        0 <= k / (m * m) < m,
        0 <= k / m % m < m,
        0 <= k % m < m,
{
    lemma_cube_digits(m, k);
    let a = k / (m * m);
    let b = k / m % m;
    let c = k % m;
    assert(0 <= a * size <= 12 && 0 <= b * size <= 12 && 0 <= c * size <= 12) by (nonlinear_arith)
        requires
            0 <= a <= 3,
            0 <= b <= 3,
            0 <= c <= 3,
            size <= 4,
    ;
}

/// The cubes that a block is shown in can be counted through.
pub proof fn lemma_block_cube_fits(
    params: RenderParams,
    occupancy: u64,
    block_origin: UVec3,
    size: u32,
    k: int,
)
    requires
        lod_size(size),
        cube_fits(block_origin, 16),
        0 <= k < block_cubes(params, occupancy, block_origin, size).len(),
    ensures
        cube_fits(block_cubes(params, occupancy, block_origin, size)[k], size),
{
    if size <= 4 {
        let m = 4int / size as int;
        assert(m * m * m == 64 || m * m * m == 8 || m * m * m == 1) by (nonlinear_arith)
            requires
                m == 4 || m == 2 || m == 1,
        ;
        lemma_cube_at(
            block_origin,
            size,
            m,
            k,
            block_cubes(params, occupancy, block_origin, size)[k],
        );
    }
}

/// The place of the instance among the parameters whose blocks hold a block, where there is one:
/// the last whose first block is not past it, if the block is among its blocks.
pub open spec fn instance_of(
    params: Seq<RenderParams>,
    first: int,
    count: int,
    block: u32,
    index: int,
) -> bool {
    &&& first <= index < first + count
    &&& params[index].mesh_params.w <= block < params[index].mesh_params.w
        + params[index].mesh_params.x
    &&& forall|j: int|
        index < j < first + count ==> #[trigger] params[j].mesh_params.w > block
}

/// Whether the first blocks of the instances grow.
pub open spec fn bases_sorted(params: Seq<RenderParams>, first: int, count: int) -> bool {
    forall|i: int, j: int|
        first <= i <= j < first + count ==> #[trigger] params[i].mesh_params.w <= #[trigger] params[j].mesh_params.w
}

/// Finds the instance whose blocks hold a block.
pub fn find_instance(params: &[RenderParams], first: u32, count: u32, global_block_index: u32) -> (r:
    Option<u32>)
    requires
        first + count <= params@.len(),
        first + count <= u32::MAX,
        bases_sorted(params@, first as int, count as int),
    ensures
        r matches Some(index) ==> instance_of(
            params@,
            first as int,
            count as int,
            global_block_index,
            index as int,
        ),
        r is None ==> forall|index: int|
            !#[trigger] instance_of(
                params@,
                first as int,
                count as int,
                global_block_index,
                index,
            ),
        r matches Some(index) ==> first <= index < first + count
            && params@[index as int].mesh_params.w <= global_block_index
            < params@[index as int].mesh_params.w + params@[index as int].mesh_params.x,
{
    let mut low: u32 = 0;
    let mut high: u32 = count;
    while low < high
        invariant
            low <= high <= count,
            first + count <= params@.len(),
            first + count <= u32::MAX,
            bases_sorted(params@, first as int, count as int),
            forall|j: int|
                first <= j < first + low ==> #[trigger] params@[j].mesh_params.w
                    <= global_block_index,
            forall|j: int|
                first + high <= j < first + count ==> #[trigger] params@[j].mesh_params.w
                    > global_block_index,
        decreases high - low,
    {
        let mid: u32 = low + (high - low) / 2;
        let candidate: RenderParams = params[(first + mid) as usize];
        if candidate.mesh_params.w <= global_block_index {
            low = mid + 1;
        } else {
            high = mid;
        }
    }
    if low == 0 {
        return None;
    }
    let index: u32 = first + low - 1;
    let instance: RenderParams = params[index as usize];
    let block_count: u32 = instance.mesh_params.x;
    let block_base: u32 = instance.mesh_params.w;
    if global_block_index < block_base || global_block_index - block_base >= block_count {
        assert forall|other: int|
            !#[trigger] instance_of(
                params@,
                first as int,
                count as int,
                global_block_index,
                other,
            ) by {
            if instance_of(params@, first as int, count as int, global_block_index, other) {
                assert(params@[other].mesh_params.w <= global_block_index);
                assert(other <= index);
                assert(params@[index as int].mesh_params.w <= global_block_index);
            }
        }
        return None;
    }
    Some(index)
}

/// Where the blocks of instances do not overlap, an instance whose blocks hold a block is the one
/// that is found.
pub proof fn law_instance_holds_block(
    params: Seq<RenderParams>,
    first: int,
    count: int,
    block: u32,
    index: int,
)
    requires
        first <= index < first + count,
        params[index].mesh_params.w <= block,
        block < params[index].mesh_params.w + params[index].mesh_params.x,
        forall|i: int, j: int|
            first <= i < j < first + count ==> (#[trigger] params[i]).mesh_params.w
                + params[i].mesh_params.x <= (#[trigger] params[j]).mesh_params.w,
    ensures
        instance_of(params, first, count, block, index),
{
}

/// What the draw arguments become when a frame starts and when its clusters have been counted.
pub fn mesh_mode(mode: u32, thread: u32, max_clusters: u32, draw_args: &mut [u32; 4]) -> (r: bool)
    ensures
        r == (mode != 0 && mode != 2),
        final(draw_args)@ == (if thread == 0 && mode == 0 {
            seq![36u32, 0, 0, 0]
        } else if thread == 0 && mode == 2 {
            seq![36u32, math::min_of(old(draw_args)@[1], max_clusters), 0, 0]
        } else {
            old(draw_args)@
        }),
{
    if mode == 0 {
        if thread == 0 {
            draw_args[0] = 36;
            draw_args[1] = 0;
            draw_args[2] = 0;
            draw_args[3] = 0;
            assert(draw_args@ =~= seq![36u32, 0, 0, 0]);
        }
        return false;
    }
    if mode == 2 {
        if thread == 0 {
            draw_args[0] = 36;
            draw_args[1] = if draw_args[1] <= max_clusters {
                draw_args[1]
            } else {
                max_clusters
            };
            draw_args[2] = 0;
            draw_args[3] = 0;
            assert(draw_args@ =~= seq![36u32, math::min_of(old(draw_args)@[1], max_clusters), 0, 0]);
        }
        return false;
    }
    true
}

/// Whether clusters behind others are left out in a mode.
pub fn occlusion_enabled(mode: u32) -> (r: bool)
    ensures
        r == (mode == 4 || mode == 5),
{
    mode == 4 || mode == 5
}

/// A cluster that is drawn: its smallest corner and its side, its color, and the place of its
/// parameters, its packed properties and its side as a whole number. The first two are the bits of
/// `f32` numbers.
#[derive(Clone, Copy, Debug, PartialEq, Eq, Structural)]
pub struct VisibleCluster {
    pub local_min_size: UVec4,
    pub color: UVec4,
    pub meta: UVec4,
}

/// Counts a cluster, and tells where it goes and what is noted of it, where there is room.
pub fn emit_cluster(
    max_clusters: u32,
    draw_args: &mut [u32; 4],
    params_index: u32,
    local_min_size: UVec4,
    size: u32,
    color: UVec4,
    packed_pbr: u32,
) -> (r: Option<(u32, VisibleCluster)>)
    ensures
        final(draw_args)@ == old(draw_args)@.update(
            1,
            if old(draw_args)@[1] == u32::MAX {
                0u32
            } else {
                (old(draw_args)@[1] + 1) as u32
            },
        ),
        r == (if old(draw_args)@[1] < max_clusters {
            Some(
                (
                    old(draw_args)@[1],
                    VisibleCluster {
                        local_min_size,
                        color,
                        meta: UVec4 { x: params_index, y: packed_pbr, z: size, w: 0 },
                    },
                ),
            )
        } else {
            None
        }),
{
    let cluster_index: u32 = draw_args[1];
    draw_args[1] = cluster_index.wrapping_add(1);
    if cluster_index >= max_clusters {
        return None;
    }
    Some(
        (
            cluster_index,
            VisibleCluster {
                local_min_size,
                color,
                meta: UVec4 { x: params_index, y: packed_pbr, z: size, w: 0 },
            },
        ),
    )
}

proof fn lemma_packed_bytes(a: u32, b: u32, c: u32, d: u32, packed: u32)
    by (bit_vector)
    requires
        a < 256,
        b < 256,
        c < 256,
        d < 256,
        packed == a | (b << 8) | (c << 16) | (d << 24),
    ensures
        packed == a + b * 256 + c * 65536 + d * 16777216,
{
}

/// Four bytes in one number, the first lowest.
pub open spec fn packed_bytes(a: u32, b: u32, c: u32, d: u32) -> int {
    a + b * 256 + c * 65536 + d * 16777216
}

/// Writes four bytes in one number: metallic, roughness, specular and emission.
pub fn pack_pbr(metallic: u32, roughness: u32, specular: u32, emission: u32) -> (r: u32)
    requires
        metallic < 256,
        roughness < 256,
        specular < 256,
        emission < 256,
    ensures
        r == packed_bytes(metallic, roughness, specular, emission),
{
    proof {
        lemma_packed_bytes(
            metallic,
            roughness,
            specular,
            emission,
            metallic | (roughness << 8) | (specular << 16) | (emission << 24),
        );
    }
    metallic | (roughness << 8) | (specular << 16) | (emission << 24)
}

} // verus!
