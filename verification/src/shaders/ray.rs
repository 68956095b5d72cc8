//! What a ray finds in a dense model. Distances are for the caller: it tells where the ray enters
//! a block, and which boundary comes next, where one comes before the ray or the block ends.

use super::dense;
use super::dense::DenseVoxelGpu;
use super::dense::DenseVoxelHit;
use super::walk;
use super::walk::Axis;
use super::walk::BlockWalk;
use super::walk::VoxelWalk;
use crate::bits;
use crate::dense::layout;
use crate::math;
use crate::math::IVec3;
use crate::math::UVec3;
use vstd::prelude::*;

verus! {

/// What has to be told of a ray before it can go on.
#[derive(Clone, Copy, Debug, PartialEq, Eq, Structural)]
pub enum RayAsk {
    /// The position at which it enters the block.
    Entry,
    /// The next voxel boundary, where one comes before the end of the block.
    VoxelCrossing,
    /// The next block boundary, where one comes before the end of the ray.
    BlockCrossing,
    /// Nothing: the ray has hit a voxel, or has left the model.
    Done(DenseVoxelHit),
}

/// A ray on its way through a dense model.
#[derive(Clone, Copy, Debug, PartialEq, Eq)]
pub struct DenseRay {
    pub blocks: BlockWalk,
    pub voxels: Option<VoxelWalk>,
}

/// The hit of a ray that hits nothing.
pub open spec fn nothing() -> DenseVoxelHit {
    DenseVoxelHit {
        voxel: UVec3 { x: 0, y: 0, z: 0 },
        material: dense::INVALID_MATERIAL,
        t: dense::INFINITY_BITS,
        normal: IVec3 { x: 0, y: 0, z: 0 },
    }
}

/// What comes next once a ray has come to a block: it enters the block where that has voxels.
pub open spec fn at_block(blocks: BlockWalk, occupancy: Seq<u64>) -> RayAsk {
    if occupancy[blocks.index()] != 0 {
        RayAsk::Entry
    } else {
        RayAsk::BlockCrossing
    }
}

/// What comes next once a ray has come to a voxel: it ends there where the voxel has a material,
/// and leaves the block where the voxel is occupied without one.
pub open spec fn at_voxel(
    model: DenseVoxelGpu,
    occupancy: Seq<u64>,
    refs: Seq<u32>,
    pages: Seq<u8>,
    voxels: VoxelWalk,
    t: u32,
) -> RayAsk {
    let block = layout::block_of(dense::coords(voxels.voxel), model.extents());
    let local = layout::local_of(dense::coords(voxels.voxel));
    let material = dense::voxel_material_spec(model, occupancy, refs, pages, voxels.voxel);
    if material != dense::INVALID_MATERIAL {
        RayAsk::Done(DenseVoxelHit { voxel: voxels.voxel, material, t, normal: voxels.normal })
    } else if bits::bit64(occupancy[block], local as u64) {
        RayAsk::BlockCrossing
    } else {
        RayAsk::VoxelCrossing
    }
}

impl DenseRay {
    /// Whether the voxel, where there is one, lies in the block that the ray is in, which ends four
    /// voxels on or with the model.
    pub open spec fn inv(&self, model: DenseVoxelGpu) -> bool {
        &&& self.blocks.inv(model)
        &&& self.voxels matches Some(voxels) ==> {
            &&& voxels.wf()
            &&& voxels.step == self.blocks.step
            &&& voxels.block_origin.x == self.blocks.block.x * 4
            &&& voxels.block_origin.y == self.blocks.block.y * 4
            &&& voxels.block_origin.z == self.blocks.block.z * 4
            &&& voxels.block_max.x == math::min_of(
                (voxels.block_origin.x + 4) as u32,
                model.size.x,
            )
            &&& voxels.block_max.y == math::min_of(
                (voxels.block_origin.y + 4) as u32,
                model.size.y,
            )
            &&& voxels.block_max.z == math::min_of(
                (voxels.block_origin.z + 4) as u32,
                model.size.z,
            )
        }
    }

    /// Starts a ray at the block that holds the position.
    pub fn begin(
        model: DenseVoxelGpu,
        occupancy: &[u64],
        material_refs: &[u32],
        position: UVec3,
        step: IVec3,
    ) -> (r: (DenseRay, RayAsk))
        requires
            walk::solid(model),
            walk::unit_steps(step),
            layout::block_count_spec(model.extents()) <= occupancy@.len(),
            layout::block_count_spec(model.extents()) <= material_refs@.len(),
        ensures
            r.0.inv(model),
            r.0.voxels is None,
            r.0.blocks.block.x == walk::clamped_voxel(model, position).x / 4,
            r.0.blocks.block.y == walk::clamped_voxel(model, position).y / 4,
            r.0.blocks.block.z == walk::clamped_voxel(model, position).z / 4,
            r.0.blocks.step == step,
            r.0.blocks.normal == (IVec3 { x: 0, y: 0, z: 0 }),
            r.1 == at_block(r.0.blocks, occupancy@),
    {
        let blocks: BlockWalk = BlockWalk::begin(model, position, step);
        let ask: RayAsk = match blocks.look(model, occupancy, material_refs) {
            Some(_) => RayAsk::Entry,
            None => RayAsk::BlockCrossing,
        };
        (DenseRay { blocks, voxels: None }, ask)
    }

    /// Enters the block at a position, at a distance given by its bits.
    pub fn enter(
        &mut self,
        model: DenseVoxelGpu,
        occupancy: &[u64],
        material_refs: &[u32],
        material_pages: &[u8],
        position: UVec3,
        t: u32,
    ) -> (r: RayAsk)
        requires
            old(self).inv(model),
            dense::readable(model, occupancy@, material_refs@, material_pages@),
            occupancy@[old(self).blocks.index()] != 0,
        ensures
            final(self).inv(model),
            final(self).blocks == old(self).blocks,
            final(self).voxels matches Some(voxels) && {
                &&& voxels.normal == old(self).blocks.normal
                &&& voxels.block_max.x == math::min_of(
                    (voxels.block_origin.x + 4) as u32,
                    model.size.x,
                )
                &&& voxels.block_max.y == math::min_of(
                    (voxels.block_origin.y + 4) as u32,
                    model.size.y,
                )
                &&& voxels.block_max.z == math::min_of(
                    (voxels.block_origin.z + 4) as u32,
                    model.size.z,
                )
                &&& voxels.voxel.x == walk::clamped(
                    walk::clamped_voxel(model, position).x,
                    voxels.block_origin.x,
                    (voxels.block_max.x - 1) as u32,
                )
                &&& voxels.voxel.y == walk::clamped(
                    walk::clamped_voxel(model, position).y,
                    voxels.block_origin.y,
                    (voxels.block_max.y - 1) as u32,
                )
                &&& voxels.voxel.z == walk::clamped(
                    walk::clamped_voxel(model, position).z,
                    voxels.block_origin.z,
                    (voxels.block_max.z - 1) as u32,
                )
                &&& r == at_voxel(
                    model,
                    occupancy@,
                    material_refs@,
                    material_pages@,
                    voxels,
                    t,
                )
            },
    {
        let voxels: VoxelWalk = VoxelWalk::begin(model, &self.blocks, position);
        self.voxels = Some(voxels);
        Self::probe(model, occupancy, material_refs, material_pages, &self.blocks, &voxels, t)
    }

    /// Crosses the next voxel boundary, at a distance given by its bits, or leaves the block.
    pub fn cross_voxel(
        &mut self,
        model: DenseVoxelGpu,
        occupancy: &[u64],
        material_refs: &[u32],
        material_pages: &[u8],
        crossing: Option<Axis>,
        t: u32,
    ) -> (r: RayAsk)
        requires
            old(self).inv(model),
            old(self).voxels is Some,
            dense::readable(model, occupancy@, material_refs@, material_pages@),
            occupancy@[old(self).blocks.index()] != 0,
        ensures
            final(self).inv(model),
            final(self).blocks == old(self).blocks,
            crossing is None ==> r == RayAsk::BlockCrossing && final(self).voxels is None,
            crossing matches Some(axis) ==> {
                let before = old(self).voxels->0;
                if walk::in_box(
                    walk::stepped(before.voxel, before.step, axis),
                    before.block_origin,
                    before.block_max,
                ) {
                    &&& final(self).voxels matches Some(voxels)
                    &&& walk::triple(voxels.voxel) == walk::stepped(before.voxel, before.step, axis)
                    &&& voxels.normal == walk::crossed_normal(before.step, axis)
                    &&& voxels.block_origin == before.block_origin
                    &&& voxels.block_max == before.block_max
                    &&& voxels.remaining() == before.remaining() - 1
                    &&& r == at_voxel(
                        model,
                        occupancy@,
                        material_refs@,
                        material_pages@,
                        voxels,
                        t,
                    )
                } else {
                    r == RayAsk::BlockCrossing && final(self).voxels is None
                }
            },
    {
        if let Some(axis) = crossing {
            if let Some(before) = self.voxels {
                let mut voxels: VoxelWalk = before;
                if voxels.advance(axis) {
                    self.voxels = Some(voxels);
                    return Self::probe(
                        model,
                        occupancy,
                        material_refs,
                        material_pages,
                        &self.blocks,
                        &voxels,
                        t,
                    );
                }
            }
        }
        self.voxels = None;
        RayAsk::BlockCrossing
    }

    /// Crosses the next block boundary, or ends the ray.
    pub fn cross_block(
        &mut self,
        model: DenseVoxelGpu,
        occupancy: &[u64],
        material_refs: &[u32],
        crossing: Option<Axis>,
    ) -> (r: RayAsk)
        requires
            old(self).inv(model),
            layout::block_count_spec(model.extents()) <= occupancy@.len(),
            layout::block_count_spec(model.extents()) <= material_refs@.len(),
        ensures
            crossing is None ==> r == RayAsk::Done(nothing()),
            crossing matches Some(axis) ==> {
                let before = old(self).blocks;
                if walk::in_box(
                    walk::stepped(before.block, before.step, axis),
                    UVec3 { x: 0, y: 0, z: 0 },
                    before.extent,
                ) {
                    &&& final(self).inv(model)
                    &&& final(self).voxels is None
                    &&& walk::triple(final(self).blocks.block) == walk::stepped(
                        before.block,
                        before.step,
                        axis,
                    )
                    &&& final(self).blocks.step == before.step
                    &&& final(self).blocks.normal == walk::crossed_normal(before.step, axis)
                    &&& final(self).blocks.remaining() == before.remaining() - 1
                    &&& r == at_block(final(self).blocks, occupancy@)
                } else {
                    r == RayAsk::Done(nothing())
                }
            },
    {
        self.voxels = None;
        if let Some(axis) = crossing {
            if self.blocks.advance(axis) {
                return match self.blocks.look(model, occupancy, material_refs) {
                    Some(_) => RayAsk::Entry,
                    None => RayAsk::BlockCrossing,
                };
            }
        }
        RayAsk::Done(DenseVoxelHit::miss())
    }

    fn probe(
        model: DenseVoxelGpu,
        occupancy: &[u64],
        material_refs: &[u32],
        material_pages: &[u8],
        blocks: &BlockWalk,
        voxels: &VoxelWalk,
        t: u32,
    ) -> (r: RayAsk)
        requires
            (DenseRay { blocks: *blocks, voxels: Some(*voxels) }).inv(model),
            dense::readable(model, occupancy@, material_refs@, material_pages@),
            occupancy@[blocks.index()] != 0,
        ensures
            r == at_voxel(model, occupancy@, material_refs@, material_pages@, *voxels, t),
    {
        proof {
            walk::law_probe_reads_model(
                model,
                *blocks,
                *voxels,
                occupancy@,
                material_refs@,
                material_pages@,
            );
            layout::lemma_block_of_bound(dense::coords(voxels.voxel), model.extents());
            assert(blocks.index() == layout::block_of(
                dense::coords(voxels.voxel),
                model.extents(),
            ));
            assert(dense::local_of(voxels.local()) == layout::local_of(
                dense::coords(voxels.voxel),
            ));
        }
        if let Some((word, material_ref)) = blocks.look(model, occupancy, material_refs) {
            if let Some(hit) = voxels.probe(word, material_ref, material_pages, t) {
                if hit.is_hit() {
                    return RayAsk::Done(hit);
                }
                return RayAsk::BlockCrossing;
            }
        }
        RayAsk::VoxelCrossing
    }
}

/// A ray goes on to the next voxel of a block only from a voxel that is not occupied, and passes a
/// block that it has not entered only where none of its voxels is.
pub proof fn law_passed_is_empty(
    model: DenseVoxelGpu,
    occupancy: Seq<u64>,
    refs: Seq<u32>,
    pages: Seq<u8>,
    blocks: BlockWalk,
    voxels: VoxelWalk,
    t: u32,
    bit: u64,
)
    requires
        bit < 64,
    ensures
        at_voxel(model, occupancy, refs, pages, voxels, t) == RayAsk::VoxelCrossing ==> !bits::bit64(
            occupancy[layout::block_of(dense::coords(voxels.voxel), model.extents())],
            layout::local_of(dense::coords(voxels.voxel)) as u64,
        ),
        at_block(blocks, occupancy) == RayAsk::BlockCrossing ==> !bits::bit64(
            occupancy[blocks.index()],
            bit,
        ),
{
    assert((0u64 >> bit) & 1 == 0) by (bit_vector);
}

/// A ray ends only at a voxel of the model that is occupied, with the material of that voxel.
pub proof fn law_hit_is_occupied(
    model: DenseVoxelGpu,
    occupancy: Seq<u64>,
    refs: Seq<u32>,
    pages: Seq<u8>,
    voxels: VoxelWalk,
    t: u32,
    hit: DenseVoxelHit,
)
    requires
        at_voxel(model, occupancy, refs, pages, voxels, t) == RayAsk::Done(hit),
    ensures
        hit.voxel == voxels.voxel,
        layout::in_bounds(dense::coords(hit.voxel), model.extents()),
        bits::bit64(
            occupancy[layout::block_of(dense::coords(hit.voxel), model.extents())],
            layout::local_of(dense::coords(hit.voxel)) as u64,
        ),
        hit.material == dense::voxel_material_spec(model, occupancy, refs, pages, hit.voxel),
        hit.t == t,
        hit.normal == voxels.normal,
{
}

/// A ray ends at every voxel of the model that it comes to whose bit is set and that has a material,
/// at the distance and with the normal that it has come with. It leaves the block where the voxel
/// has none.
pub proof fn law_occupied_is_hit(
    model: DenseVoxelGpu,
    occupancy: Seq<u64>,
    refs: Seq<u32>,
    pages: Seq<u8>,
    voxels: VoxelWalk,
    t: u32,
)
    requires
        voxels.voxel.x < model.size.x,
        voxels.voxel.y < model.size.y,
        voxels.voxel.z < model.size.z,
    ensures
        ({
            let v = voxels.voxel;
            let across = (model.size.x + 3) / 4;
            let up = (model.size.y + 3) / 4;
            let word = occupancy[v.x / 4 + v.y / 4 * across + v.z / 4 * across * up];
            let occupied = (word >> ((v.x % 4 + v.y % 4 * 4 + v.z % 4 * 16) as u64)) & 1 == 1;
            let material = dense::voxel_material_spec(model, occupancy, refs, pages, v);
            let r = at_voxel(model, occupancy, refs, pages, voxels, t);
            &&& !occupied ==> r is VoxelCrossing
            &&& occupied && material == 0xffff_ffff ==> r is BlockCrossing
            &&& occupied && material != 0xffff_ffff ==> (r matches RayAsk::Done(hit) && hit.voxel == v
                && hit.material == material && hit.t == t && hit.normal == voxels.normal)
        }),
{
}

/// A ray enters a block just where the word of the block is not zero. The first axis comes first
/// among the blocks.
pub proof fn law_block_is_entered(blocks: BlockWalk, occupancy: Seq<u64>)
    ensures
        ({
            let word = occupancy[blocks.block.x + blocks.block.y * blocks.extent.x + blocks.block.z
                * blocks.extent.x * blocks.extent.y];
            &&& word != 0 <==> at_block(blocks, occupancy) is Entry
            &&& word == 0 <==> at_block(blocks, occupancy) is BlockCrossing
        }),
{
}

/// A ray that ends without a hit tells no material, no normal, and an infinite distance.
pub proof fn law_nothing_is_no_hit()
    ensures
        nothing().material == 0xffff_ffff,
        nothing().t == 0x7f80_0000,
        nothing().normal == (IVec3 { x: 0, y: 0, z: 0 }),
        nothing().voxel == (UVec3 { x: 0, y: 0, z: 0 }),
{
}

} // verus!
