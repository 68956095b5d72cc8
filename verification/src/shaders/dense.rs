//! How a shader reads a dense model.

use crate::bits;
use crate::dense::geometry::DenseVoxelGeometry;
use crate::dense::layout;
use crate::dense::material::DenseVoxelMaterial;
use crate::dense::model;
use crate::math::IVec3;
use crate::math::UVec3;
use crate::math::UVec4;
use vstd::prelude::*;

verus! {

/// The largest extent of a model along one axis, in voxels.
pub const MODEL_SIZE: u32 = 256;

/// The extent of a block along one axis, in voxels.
pub const BLOCK_SIZE: u32 = 4;

/// The material reference of a block without voxels.
pub const EMPTY_MATERIAL_REF: u32 = 0xffff_ffff;

/// The bit that marks a material reference as the index of a page.
pub const MATERIAL_PAGE_FLAG: u32 = 0x8000_0000;

/// The bits of a material reference that hold the index of a page.
pub const MATERIAL_PAGE_MASK: u32 = 0x7fff_ffff;

/// What is read where there is no voxel.
pub const INVALID_MATERIAL: u32 = 0xffff_ffff;

/// The bits of an infinite `f32`.
pub const INFINITY_BITS: u32 = 0x7f80_0000;

/// What a shader reads of a dense model: its size, and the handles of its parts.
#[derive(Clone, Copy, Debug, PartialEq, Eq, Structural)]
pub struct DenseVoxelGpu {
    pub size: UVec4,
    pub occupancy_handle: u32,
    pub material_refs_handle: u32,
    pub material_pages_handle: u32,
    pub _pad: u32,
}

/// Where a ray hits a model. The distance is held as the bits of an `f32`.
#[derive(Clone, Copy, Debug, PartialEq, Eq, Structural)]
pub struct DenseVoxelHit {
    pub voxel: UVec3,
    pub material: u32,
    pub t: u32,
    pub normal: IVec3,
}

impl DenseVoxelHit {
    /// The hit of a ray that hits nothing.
    pub fn miss() -> (r: DenseVoxelHit)
        ensures
            r.material == INVALID_MATERIAL,
            r.voxel == (UVec3 { x: 0, y: 0, z: 0 }),
            r.normal == (IVec3 { x: 0, y: 0, z: 0 }),
            r.t == INFINITY_BITS,
    {
        DenseVoxelHit {
            voxel: UVec3 { x: 0, y: 0, z: 0 },
            material: INVALID_MATERIAL,
            t: INFINITY_BITS,
            normal: IVec3 { x: 0, y: 0, z: 0 },
        }
    }

    /// Whether a voxel was hit.
    pub fn is_hit(self) -> (r: bool)
        ensures
            r == (self.material != INVALID_MATERIAL),
    {
        self.material != INVALID_MATERIAL
    }
}

impl DenseVoxelGpu {
    /// The extents of the model in voxels.
    pub open spec fn extents(self) -> [u32; 3] {
        [self.size.x, self.size.y, self.size.z]
    }

    /// Whether the blocks of the model can be counted.
    pub open spec fn wf(self) -> bool {
        &&& self.size.x + 3 <= u32::MAX
        &&& self.size.y + 3 <= u32::MAX
        &&& self.size.z + 3 <= u32::MAX
        &&& layout::block_count_spec(self.extents()) <= u32::MAX
    }
}

/// The coordinates of a vector, in order.
pub open spec fn coords(v: UVec3) -> [u32; 3] {
    [v.x, v.y, v.z]
}

/// Whether a block lies inside the extents.
pub open spec fn inside(block: UVec3, extent: UVec3) -> bool {
    &&& block.x < extent.x
    &&& block.y < extent.y
    &&& block.z < extent.z
}

/// The extents of a model in blocks.
pub open spec fn block_extent_spec(model: DenseVoxelGpu) -> UVec3 {
    UVec3 {
        x: layout::axis_blocks(model.size.x) as u32,
        y: layout::axis_blocks(model.size.y) as u32,
        z: layout::axis_blocks(model.size.z) as u32,
    }
}

/// The bit of a voxel in the occupancy word of its block.
pub open spec fn local_of(local: UVec3) -> int {
    local.x + local.y * 4 + local.z * 16
}

/// Whether the coordinates are those of a voxel inside its block.
pub open spec fn in_block(local: UVec3) -> bool {
    &&& local.x < 4
    &&& local.y < 4
    &&& local.z < 4
}

/// The extents of a model in blocks.
pub fn block_extent(model: DenseVoxelGpu) -> (r: UVec3)
    requires
        model.size.x + 3 <= u32::MAX,
        model.size.y + 3 <= u32::MAX,
        model.size.z + 3 <= u32::MAX,
    ensures
        r == block_extent_spec(model),
        r.x == layout::axis_blocks(model.size.x),
        r.y == layout::axis_blocks(model.size.y),
        r.z == layout::axis_blocks(model.size.z),
{
    UVec3 {
        x: (model.size.x + (BLOCK_SIZE - 1)) / BLOCK_SIZE,
        y: (model.size.y + (BLOCK_SIZE - 1)) / BLOCK_SIZE,
        z: (model.size.z + (BLOCK_SIZE - 1)) / BLOCK_SIZE,
    }
}

/// The position of a block that lies inside the extents.
pub fn block_index(block: UVec3, extent: UVec3) -> (r: usize)
    requires
        inside(block, extent),
        extent.x * extent.y * extent.z <= u32::MAX,
    ensures
        r == layout::linear_index(
            block.x as int,
            block.y as int,
            block.z as int,
            extent.x as int,
            extent.y as int,
        ),
        r < extent.x * extent.y * extent.z,
{
    proof {
        layout::lemma_linear_bound(
            block.x as int,
            block.y as int,
            block.z as int,
            extent.x as int,
            extent.y as int,
            extent.z as int,
        );
        assert(extent.x * extent.y <= extent.x * extent.y * extent.z && block.z * extent.x
            <= block.z * extent.x * extent.y) by (nonlinear_arith)
            requires
                0 < extent.x,
                0 < extent.y,
                0 < extent.z,
                0 <= block.z,
        ;
    }
    (block.x + block.y * extent.x + block.z * extent.x * extent.y) as usize
}

/// The bit of a voxel in the occupancy word of its block.
pub fn local_index(local: UVec3) -> (r: u32)
    requires
        in_block(local),
    ensures
        r == local_of(local),
        r < 64,
{
    layout::local_index([local.x, local.y, local.z])
}

/// The block that a voxel lies in.
pub fn voxel_block(voxel: UVec3) -> (r: UVec3)
    ensures
        r == (UVec3 { x: voxel.x / 4, y: voxel.y / 4, z: voxel.z / 4 }),
{
    UVec3 { x: voxel.x / BLOCK_SIZE, y: voxel.y / BLOCK_SIZE, z: voxel.z / BLOCK_SIZE }
}

/// The coordinates of a voxel inside its block.
pub fn voxel_local(voxel: UVec3) -> (r: UVec3)
    ensures
        r == (UVec3 { x: voxel.x % 4, y: voxel.y % 4, z: voxel.z % 4 }),
        in_block(r),
{
    proof {
        layout::lemma_low_two_bits(voxel.x);
        layout::lemma_low_two_bits(voxel.y);
        layout::lemma_low_two_bits(voxel.z);
    }
    UVec3 {
        x: voxel.x & (BLOCK_SIZE - 1),
        y: voxel.y & (BLOCK_SIZE - 1),
        z: voxel.z & (BLOCK_SIZE - 1),
    }
}

/// Whether a material reference is the index of a page.
pub fn is_page_material_ref(material_ref: u32) -> (r: bool)
    ensures
        r == layout::page_ref(material_ref),
{
    proof {
        layout::lemma_flag_bits(material_ref);
    }
    material_ref != EMPTY_MATERIAL_REF && (material_ref & MATERIAL_PAGE_FLAG) != 0
}

/// Whether a material reference is one material for the whole block.
pub fn is_uniform_material_ref(material_ref: u32) -> (r: bool)
    ensures
        r == layout::uniform_ref(material_ref),
{
    proof {
        layout::lemma_flag_bits(material_ref);
    }
    material_ref != EMPTY_MATERIAL_REF && (material_ref & MATERIAL_PAGE_FLAG) == 0
}

/// The page that a material reference speaks of: the reference without its flag.
pub fn material_page_index(material_ref: u32) -> (r: u32)
    ensures
        r == (if material_ref >= MATERIAL_PAGE_FLAG {
            material_ref - MATERIAL_PAGE_FLAG
        } else {
            material_ref as int
        }),
{
    proof {
        layout::lemma_flag_bits(material_ref);
    }
    material_ref & MATERIAL_PAGE_MASK
}

/// Whether a voxel's bit is set in the occupancy word of its block.
pub fn occupancy_bit(occupancy: u64, local: UVec3) -> (r: bool)
    requires
        in_block(local),
    ensures
        r == bits::bit64(occupancy, local_of(local) as u64),
{
    let index: u32 = local_index(local);
    proof {
        bits::lemma_bit64_test(occupancy, index as u64);
    }
    ((occupancy >> (index as u64)) & 1) != 0
}

/// The material that a reference tells for a voxel of its block.
pub open spec fn local_material(material_ref: u32, pages: Seq<u8>, local: int) -> u32 {
    if layout::uniform_ref(material_ref) {
        layout::uniform_of(material_ref) as u32
    } else if layout::page_ref(material_ref) {
        pages[layout::page_of(material_ref) * 64 + local] as u32
    } else {
        INVALID_MATERIAL
    }
}

/// Whether the page that a reference speaks of can be read.
pub open spec fn page_readable(material_ref: u32, pages: Seq<u8>) -> bool {
    layout::page_ref(material_ref) ==> layout::page_of(material_ref) * 64 + 63 < pages.len()
        && layout::page_of(material_ref) * 64 + 63 <= u32::MAX
}

/// The material that a reference tells for a voxel of its block.
pub fn material_for_local_voxel(material_ref: u32, material_pages: &[u8], local: UVec3) -> (r: u32)
    requires
        in_block(local),
        page_readable(material_ref, material_pages@),
    ensures
        r == local_material(material_ref, material_pages@, local_of(local)),
{
    if is_uniform_material_ref(material_ref) {
        proof {
            layout::lemma_low_byte(material_ref);
        }
        return material_ref & 0xff;
    }
    if !is_page_material_ref(material_ref) {
        return INVALID_MATERIAL;
    }
    let page_index: u32 = material_page_index(material_ref);
    let byte_index: u32 = page_index * 64 + local_index(local);
    material_pages[byte_index as usize] as u32
}

/// Whether a voxel lies inside a model.
pub fn voxel_in_bounds(model: DenseVoxelGpu, voxel: UVec3) -> (r: bool)
    ensures
        r == layout::in_bounds(coords(voxel), model.extents()),
{
    voxel.x < model.size.x && voxel.y < model.size.y && voxel.z < model.size.z
}

/// What is read of the voxel at `voxel`: its material, or `INVALID_MATERIAL` where there is none.
pub open spec fn voxel_material_spec(
    model: DenseVoxelGpu,
    occupancy: Seq<u64>,
    refs: Seq<u32>,
    pages: Seq<u8>,
    voxel: UVec3,
) -> u32 {
    let block = layout::block_of(coords(voxel), model.extents());
    let local = layout::local_of(coords(voxel));
    if layout::in_bounds(coords(voxel), model.extents()) && bits::bit64(
        occupancy[block],
        local as u64,
    ) {
        local_material(refs[block], pages, local)
    } else {
        INVALID_MATERIAL
    }
}

/// Whether the parts of a model that can be asked for can be read.
pub open spec fn readable(
    model: DenseVoxelGpu,
    occupancy: Seq<u64>,
    refs: Seq<u32>,
    pages: Seq<u8>,
) -> bool {
    &&& model.wf()
    &&& layout::block_count_spec(model.extents()) <= occupancy.len()
    &&& layout::block_count_spec(model.extents()) <= refs.len()
    &&& forall|b: int|
        0 <= b < layout::block_count_spec(model.extents()) && #[trigger] occupancy[b] != 0
            ==> page_readable(refs[b], pages)
}

/// The material of the voxel at `voxel`, or `INVALID_MATERIAL` where there is none.
pub fn voxel_material(
    model: DenseVoxelGpu,
    occupancy: &[u64],
    material_refs: &[u32],
    material_pages: &[u8],
    voxel: UVec3,
) -> (r: u32)
    requires
        readable(model, occupancy@, material_refs@, material_pages@),
    ensures
        r == voxel_material_spec(model, occupancy@, material_refs@, material_pages@, voxel),
{
    if !voxel_in_bounds(model, voxel) {
        return INVALID_MATERIAL;
    }
    let block: UVec3 = voxel_block(voxel);
    let local: UVec3 = voxel_local(voxel);
    proof {
        layout::lemma_block_of_bound(coords(voxel), model.extents());
    }
    let block_index: usize = block_index(block, block_extent(model));
    let word: u64 = occupancy[block_index];
    if !occupancy_bit(word, local) {
        return INVALID_MATERIAL;
    }
    proof {
        bits::lemma_bit64_zero(local_of(local) as u64);
    }
    material_for_local_voxel(material_refs[block_index], material_pages, local)
}

/// Outside a model, and where a voxel's bit is not set in the word of its block, there is no
/// material. Elsewhere the reference of the block tells it: its lowest byte where it has no page
/// flag, and else the voxel's byte of the page, and none where it is that of an empty block. Blocks
/// have four voxels along each axis, and the first axis comes first among the blocks and among the
/// bits.
pub proof fn law_voxel_material(
    model: DenseVoxelGpu,
    occupancy: Seq<u64>,
    refs: Seq<u32>,
    pages: Seq<u8>,
    voxel: UVec3,
)
    ensures
        ({
            let across = (model.size.x + 3) / 4;
            let up = (model.size.y + 3) / 4;
            let block = voxel.x / 4 + voxel.y / 4 * across + voxel.z / 4 * across * up;
            let bit = voxel.x % 4 + voxel.y % 4 * 4 + voxel.z % 4 * 16;
            let inside = voxel.x < model.size.x && voxel.y < model.size.y && voxel.z < model.size.z;
            let r = voxel_material_spec(model, occupancy, refs, pages, voxel);
            if inside && (occupancy[block] >> (bit as u64)) & 1 == 1 {
                &&& refs[block] < 0x8000_0000 ==> r == refs[block] % 256
                &&& 0x8000_0000 <= refs[block] < 0xffff_ffff ==> r == pages[(refs[block]
                    - 0x8000_0000) * 64 + bit]
                &&& refs[block] == 0xffff_ffff ==> r == 0xffff_ffff
            } else {
                r == 0xffff_ffff
            }
        }),
{
}

/// A shader reads of every voxel the material that the model has for it.
pub proof fn law_shader_reads_model(
    gpu: DenseVoxelGpu,
    geometry: DenseVoxelGeometry,
    material: DenseVoxelMaterial,
    pages: Seq<u8>,
    voxel: UVec3,
)
    requires
        model::coherent(geometry, material),
        gpu.extents() == geometry.extents(),
        forall|p: int, i: int|
            0 <= p < material.page_count() && 0 <= i < 64 ==> #[trigger] material.page(p)[i]
                == pages[p * 64 + i],
        layout::in_bounds(coords(voxel), geometry.extents()),
    ensures
        voxel_material_spec(gpu, geometry.words(), material.refs(), pages, voxel) == (
        match material.material_at(&geometry, coords(voxel)) {
            Some(id) => id as u32,
            None => INVALID_MATERIAL,
        }),
{
    let block = layout::block_of(coords(voxel), geometry.extents());
    let local = layout::local_of(coords(voxel));
    layout::lemma_block_of_bound(coords(voxel), geometry.extents());
    if geometry.occupied(coords(voxel)) {
        bits::lemma_bit64_zero(local as u64);
        assert(geometry.words()[block] != 0);
        assert(material.resolves(block));
        if layout::page_ref(material.refs()[block]) {
            let page = layout::page_of(material.refs()[block]);
            assert(material.page(page)[local] == pages[page * 64 + local]);
        }
    }
}

} // verus!
