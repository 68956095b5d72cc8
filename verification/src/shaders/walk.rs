//! How a ray walks through a dense model: from block to block, and from voxel to voxel inside a
//! block. Which boundary comes first is for the caller to tell.

use super::dense;
use super::dense::DenseVoxelGpu;
use super::dense::DenseVoxelHit;
use super::dense::BLOCK_SIZE;
use crate::bits;
use crate::dense::layout;
use crate::math;
use crate::math::IVec3;
use crate::math::UVec3;
use vstd::prelude::*;

verus! {

/// One of the three axes.
#[derive(Clone, Copy, Debug, PartialEq, Eq, Structural)]
pub enum Axis {
    X,
    Y,
    Z,
}

/// The axis whose boundary comes first, the earlier axis where two come together. Told is whether
/// the first comes no later than the second, the first no later than the third, and the second no
/// later than the third.
pub fn next_axis(x_before_y: bool, x_before_z: bool, y_before_z: bool) -> (r: Axis)
    ensures
        r == Axis::X <==> x_before_y && x_before_z,
        r == Axis::Y <==> !(x_before_y && x_before_z) && y_before_z,
        r == Axis::Z <==> !(x_before_y && x_before_z) && !y_before_z,
{
    if x_before_y && x_before_z {
        Axis::X
    } else if y_before_z {
        Axis::Y
    } else {
        Axis::Z
    }
}

/// Steps along an axis, and tells whether the step leads to a place below `extent`. A step back
/// from zero is not taken.
pub fn step_axis(axis: &mut u32, step: i32, extent: u32) -> (r: bool)
    requires
        step > 0 ==> *old(axis) < u32::MAX,
    ensures
        step > 0 ==> *final(axis) == *old(axis) + 1 && r == (*final(axis) < extent),
        step <= 0 && *old(axis) == 0 ==> *final(axis) == 0 && !r,
        step <= 0 && *old(axis) > 0 ==> *final(axis) == *old(axis) - 1 && r,
{
    if step > 0 {
        *axis = *axis + 1;
        *axis < extent
    } else if *axis == 0 {
        false
    } else {
        *axis = *axis - 1;
        true
    }
}

/// Steps along an axis, and tells whether the step leads to a place between `min` and `max`. A
/// step back from `min` is not taken.
pub fn step_axis_range(axis: &mut u32, step: i32, min: u32, max: u32) -> (r: bool)
    requires
        step > 0 ==> *old(axis) < u32::MAX,
        step <= 0 ==> min <= *old(axis),
    ensures
        step > 0 ==> *final(axis) == *old(axis) + 1 && r == (*final(axis) < max),
        step <= 0 && *old(axis) == min ==> *final(axis) == min && !r,
        step <= 0 && *old(axis) > min ==> *final(axis) == *old(axis) - 1 && r,
{
    if step > 0 {
        *axis = *axis + 1;
        *axis < max
    } else if *axis == min {
        false
    } else {
        *axis = *axis - 1;
        true
    }
}

/// The direction of the steps along each axis, given whether the ray runs against the axis.
pub fn step_vec(against: [bool; 3]) -> (r: IVec3)
    ensures
        unit_steps(r),
        r.x == (if against@[0] { -1int } else { 1 }),
        r.y == (if against@[1] { -1int } else { 1 }),
        r.z == (if against@[2] { -1int } else { 1 }),
{
    IVec3 {
        x: if against[0] { -1 } else { 1 },
        y: if against[1] { -1 } else { 1 },
        z: if against[2] { -1 } else { 1 },
    }
}

/// Whether each step is by one.
pub open spec fn unit_steps(step: IVec3) -> bool {
    &&& step.x == 1 || step.x == -1
    &&& step.y == 1 || step.y == -1
    &&& step.z == 1 || step.z == -1
}

/// The normal of the boundary that a step along an axis crosses.
pub open spec fn crossed_normal(step: IVec3, axis: Axis) -> IVec3 {
    match axis {
        Axis::X => IVec3 { x: (-step.x) as i32, y: 0, z: 0 },
        Axis::Y => IVec3 { x: 0, y: (-step.y) as i32, z: 0 },
        Axis::Z => IVec3 { x: 0, y: 0, z: (-step.z) as i32 },
    }
}

/// The cell that a step along an axis leads to, in coordinates that may lie outside.
pub open spec fn stepped(cell: UVec3, step: IVec3, axis: Axis) -> (int, int, int) {
    match axis {
        Axis::X => (cell.x + step.x, cell.y as int, cell.z as int),
        Axis::Y => (cell.x as int, cell.y + step.y, cell.z as int),
        Axis::Z => (cell.x as int, cell.y as int, cell.z + step.z),
    }
}

/// Whether coordinates lie in a box.
pub open spec fn in_box(cell: (int, int, int), min: UVec3, max: UVec3) -> bool {
    &&& min.x <= cell.0 < max.x
    &&& min.y <= cell.1 < max.y
    &&& min.z <= cell.2 < max.z
}

/// The coordinates of a cell as integers.
pub open spec fn triple(cell: UVec3) -> (int, int, int) {
    (cell.x as int, cell.y as int, cell.z as int)
}

/// The number of cells of a box ahead of `at` along one axis.
pub open spec fn ahead(at: u32, step: i32, min: u32, max: u32) -> int {
    if step > 0 {
        max - 1 - at
    } else {
        at - min
    }
}

/// The number of cells of a box ahead of `cell`, over all axes.
pub open spec fn cells_ahead(cell: UVec3, step: IVec3, min: UVec3, max: UVec3) -> int {
    ahead(cell.x, step.x, min.x, max.x) + ahead(cell.y, step.y, min.y, max.y) + ahead(
        cell.z,
        step.z,
        min.z,
        max.z,
    )
}

/// The voxel at a position, moved into the model.
pub open spec fn clamped_voxel(model: DenseVoxelGpu, position: UVec3) -> UVec3 {
    UVec3 {
        x: math::min_of(position.x, (model.size.x - 1) as u32),
        y: math::min_of(position.y, (model.size.y - 1) as u32),
        z: math::min_of(position.z, (model.size.z - 1) as u32),
    }
}

/// Whether a model has voxels, and its blocks can be counted.
pub open spec fn solid(model: DenseVoxelGpu) -> bool {
    &&& model.wf()
    &&& model.size.x > 0
    &&& model.size.y > 0
    &&& model.size.z > 0
}

/// The voxel at a position, moved into the model. The position is rounded down, and zero where it
/// is negative.
pub fn position_to_voxel(model: DenseVoxelGpu, position: UVec3) -> (r: UVec3)
    requires
        model.size.x > 0,
        model.size.y > 0,
        model.size.z > 0,
    ensures
        r == clamped_voxel(model, position),
        layout::in_bounds(dense::coords(r), model.extents()),
{
    position.min(UVec3 { x: model.size.x - 1, y: model.size.y - 1, z: model.size.z - 1 })
}

/// A ray on its way from block to block.
#[derive(Clone, Copy, Debug, PartialEq, Eq, Structural)]
pub struct BlockWalk {
    pub block: UVec3,
    pub extent: UVec3,
    pub step: IVec3,
    pub normal: IVec3,
}

impl BlockWalk {
    /// Whether the block lies inside the extents, and the steps are by one.
    pub open spec fn wf(&self) -> bool {
        &&& dense::inside(self.block, self.extent)
        &&& self.extent.x * 4 <= u32::MAX
        &&& self.extent.y * 4 <= u32::MAX
        &&& self.extent.z * 4 <= u32::MAX
        &&& unit_steps(self.step)
    }

    /// Whether the block is one of the model's.
    pub open spec fn inv(&self, model: DenseVoxelGpu) -> bool {
        &&& self.wf()
        &&& solid(model)
        &&& self.extent == dense::block_extent_spec(model)
    }

    /// The number of blocks ahead, over all axes.
    pub open spec fn remaining(&self) -> int {
        cells_ahead(self.block, self.step, UVec3 { x: 0, y: 0, z: 0 }, self.extent)
    }

    /// Starts at the block that holds the position.
    pub fn begin(model: DenseVoxelGpu, position: UVec3, step: IVec3) -> (r: BlockWalk)
        requires
            solid(model),
            unit_steps(step),
        ensures
            r.inv(model),
            r.block.x == clamped_voxel(model, position).x / 4,
            r.block.y == clamped_voxel(model, position).y / 4,
            r.block.z == clamped_voxel(model, position).z / 4,
            r.step == step,
            r.normal == (IVec3 { x: 0, y: 0, z: 0 }),
    {
        BlockWalk {
            block: dense::voxel_block(position_to_voxel(model, position)),
            extent: dense::block_extent(model),
            step,
            normal: IVec3 { x: 0, y: 0, z: 0 },
        }
    }

    /// The next boundary of the block along each axis.
    pub fn boundary(&self) -> (r: UVec3)
        requires
            self.wf(),
        ensures
            r.x == self.block.x * 4 + (if self.step.x > 0 { 4int } else { 0 }),
            r.y == self.block.y * 4 + (if self.step.y > 0 { 4int } else { 0 }),
            r.z == self.block.z * 4 + (if self.step.z > 0 { 4int } else { 0 }),
            2 * r.x == 8 * self.block.x + 4 + 4 * self.step.x,
            2 * r.y == 8 * self.block.y + 4 + 4 * self.step.y,
            2 * r.z == 8 * self.block.z + 4 + 4 * self.step.z,
    {
        let base: UVec3 = UVec3 {
            x: self.block.x * BLOCK_SIZE,
            y: self.block.y * BLOCK_SIZE,
            z: self.block.z * BLOCK_SIZE,
        };
        UVec3 {
            x: if self.step.x > 0 { base.x + BLOCK_SIZE } else { base.x },
            y: if self.step.y > 0 { base.y + BLOCK_SIZE } else { base.y },
            z: if self.step.z > 0 { base.z + BLOCK_SIZE } else { base.z },
        }
    }

    /// The occupancy word and the material reference of the block, where it has voxels.
    pub fn look(
        &self,
        model: DenseVoxelGpu,
        occupancy: &[u64],
        material_refs: &[u32],
    ) -> (r: Option<(u64, u32)>)
        requires
            self.inv(model),
            layout::block_count_spec(model.extents()) <= occupancy@.len(),
            layout::block_count_spec(model.extents()) <= material_refs@.len(),
        ensures
            r == (if occupancy@[self.index()] != 0 {
                Some((occupancy@[self.index()], material_refs@[self.index()]))
            } else {
                None
            }),
    {
        let index: usize = dense::block_index(self.block, self.extent);
        let word: u64 = occupancy[index];
        if word != 0 {
            Some((word, material_refs[index]))
        } else {
            None
        }
    }

    /// The position of the block.
    pub open spec fn index(&self) -> int {
        layout::linear_index(
            self.block.x as int,
            self.block.y as int,
            self.block.z as int,
            self.extent.x as int,
            self.extent.y as int,
        )
    }

    /// Crosses the boundary along an axis, and tells whether that leads to another block of the
    /// model.
    pub fn advance(&mut self, axis: Axis) -> (r: bool)
        requires
            old(self).wf(),
        ensures
            final(self).extent == old(self).extent,
            final(self).step == old(self).step,
            final(self).normal == crossed_normal(old(self).step, axis),
            r == in_box(
                stepped(old(self).block, old(self).step, axis),
                UVec3 { x: 0, y: 0, z: 0 },
                old(self).extent,
            ),
            r ==> final(self).wf() && triple(final(self).block) == stepped(
                old(self).block,
                old(self).step,
                axis,
            ) && final(self).remaining() == old(self).remaining() - 1,
            r ==> final(self).block.x + final(self).normal.x == old(self).block.x,
            r ==> final(self).block.y + final(self).normal.y == old(self).block.y,
            r ==> final(self).block.z + final(self).normal.z == old(self).block.z,
            final(self).normal.x == (if axis == Axis::X {
                -old(self).step.x
            } else {
                0
            }),
            final(self).normal.y == (if axis == Axis::Y {
                -old(self).step.y
            } else {
                0
            }),
            final(self).normal.z == (if axis == Axis::Z {
                -old(self).step.z
            } else {
                0
            }),
    {
        match axis {
            Axis::X => {
                self.normal = IVec3 { x: -self.step.x, y: 0, z: 0 };
                step_axis(&mut self.block.x, self.step.x, self.extent.x)
            },
            Axis::Y => {
                self.normal = IVec3 { x: 0, y: -self.step.y, z: 0 };
                step_axis(&mut self.block.y, self.step.y, self.extent.y)
            },
            Axis::Z => {
                self.normal = IVec3 { x: 0, y: 0, z: -self.step.z };
                step_axis(&mut self.block.z, self.step.z, self.extent.z)
            },
        }
    }
}

/// A ray on its way from voxel to voxel inside a block.
#[derive(Clone, Copy, Debug, PartialEq, Eq, Structural)]
pub struct VoxelWalk {
    pub voxel: UVec3,
    pub block_origin: UVec3,
    pub block_max: UVec3,
    pub step: IVec3,
    pub normal: IVec3,
}

/// The value moved between `min` and `max`.
fn clamp_between(value: u32, min: u32, max: u32) -> (r: u32)
    requires
        min <= max,
    ensures
        r == clamped(value, min, max),
{
    if value < min {
        min
    } else if value > max {
        max
    } else {
        value
    }
}

/// The value moved between `min` and `max`.
pub open spec fn clamped(value: u32, min: u32, max: u32) -> u32 {
    if value < min {
        min
    } else if value > max {
        max
    } else {
        value
    }
}

impl VoxelWalk {
    /// Whether the voxel lies in the block, of which nothing is wider than a block.
    pub open spec fn wf(&self) -> bool {
        &&& in_box(triple(self.voxel), self.block_origin, self.block_max)
        &&& self.block_max.x <= self.block_origin.x + 4
        &&& self.block_max.y <= self.block_origin.y + 4
        &&& self.block_max.z <= self.block_origin.z + 4
        &&& unit_steps(self.step)
    }

    /// The number of voxels ahead, over all axes.
    pub open spec fn remaining(&self) -> int {
        cells_ahead(self.voxel, self.step, self.block_origin, self.block_max)
    }

    /// The coordinates of the voxel inside the block.
    pub open spec fn local(&self) -> UVec3 {
        UVec3 {
            x: (self.voxel.x - self.block_origin.x) as u32,
            y: (self.voxel.y - self.block_origin.y) as u32,
            z: (self.voxel.z - self.block_origin.z) as u32,
        }
    }

    /// Enters a block at the voxel that holds the position, moved into the block.
    pub fn begin(model: DenseVoxelGpu, walk: &BlockWalk, position: UVec3) -> (r: VoxelWalk)
        requires
            walk.inv(model),
        ensures
            r.wf(),
            r.step == walk.step,
            r.normal == walk.normal,
            r.block_origin.x == walk.block.x * 4,
            r.block_origin.y == walk.block.y * 4,
            r.block_origin.z == walk.block.z * 4,
            r.block_max.x == math::min_of((r.block_origin.x + 4) as u32, model.size.x),
            r.block_max.y == math::min_of((r.block_origin.y + 4) as u32, model.size.y),
            r.block_max.z == math::min_of((r.block_origin.z + 4) as u32, model.size.z),
            r.voxel.x == clamped(
                clamped_voxel(model, position).x,
                r.block_origin.x,
                (r.block_max.x - 1) as u32,
            ),
            r.voxel.y == clamped(
                clamped_voxel(model, position).y,
                r.block_origin.y,
                (r.block_max.y - 1) as u32,
            ),
            r.voxel.z == clamped(
                clamped_voxel(model, position).z,
                r.block_origin.z,
                (r.block_max.z - 1) as u32,
            ),
    {
        let block_origin: UVec3 = UVec3 {
            x: walk.block.x * BLOCK_SIZE,
            y: walk.block.y * BLOCK_SIZE,
            z: walk.block.z * BLOCK_SIZE,
        };
        let block_end: UVec3 = UVec3 {
            x: block_origin.x + BLOCK_SIZE,
            y: block_origin.y + BLOCK_SIZE,
            z: block_origin.z + BLOCK_SIZE,
        };
        let block_max: UVec3 = block_end.min(
            UVec3 { x: model.size.x, y: model.size.y, z: model.size.z },
        );
        let at: UVec3 = position_to_voxel(model, position);
        VoxelWalk {
            voxel: UVec3 {
                x: clamp_between(at.x, block_origin.x, block_max.x - 1),
                y: clamp_between(at.y, block_origin.y, block_max.y - 1),
                z: clamp_between(at.z, block_origin.z, block_max.z - 1),
            },
            block_origin,
            block_max,
            step: walk.step,
            normal: walk.normal,
        }
    }

    /// The next boundary of the voxel along each axis.
    pub fn boundary(&self) -> (r: UVec3)
        requires
            self.wf(),
        ensures
            r.x == self.voxel.x + (if self.step.x > 0 { 1int } else { 0 }),
            r.y == self.voxel.y + (if self.step.y > 0 { 1int } else { 0 }),
            r.z == self.voxel.z + (if self.step.z > 0 { 1int } else { 0 }),
            2 * r.x == 2 * self.voxel.x + 1 + self.step.x,
            2 * r.y == 2 * self.voxel.y + 1 + self.step.y,
            2 * r.z == 2 * self.voxel.z + 1 + self.step.z,
    {
        UVec3 {
            x: if self.step.x > 0 { self.voxel.x + 1 } else { self.voxel.x },
            y: if self.step.y > 0 { self.voxel.y + 1 } else { self.voxel.y },
            z: if self.step.z > 0 { self.voxel.z + 1 } else { self.voxel.z },
        }
    }

    /// The hit at the voxel, where it is occupied, at a distance given by its bits.
    pub fn probe(
        &self,
        occupancy: u64,
        material_ref: u32,
        material_pages: &[u8],
        t: u32,
    ) -> (r: Option<DenseVoxelHit>)
        requires
            self.wf(),
            dense::page_readable(material_ref, material_pages@),
        ensures
            r is Some <==> bits::bit64(occupancy, dense::local_of(self.local()) as u64),
            r matches Some(hit) ==> hit.voxel == self.voxel && hit.normal == self.normal && hit.t
                == t && hit.material == dense::local_material(
                material_ref,
                material_pages@,
                dense::local_of(self.local()),
            ),
    {
        let local: UVec3 = UVec3 {
            x: self.voxel.x - self.block_origin.x,
            y: self.voxel.y - self.block_origin.y,
            z: self.voxel.z - self.block_origin.z,
        };
        if dense::occupancy_bit(occupancy, local) {
            Some(
                DenseVoxelHit {
                    voxel: self.voxel,
                    material: dense::material_for_local_voxel(material_ref, material_pages, local),
                    t,
                    normal: self.normal,
                },
            )
        } else {
            None
        }
    }

    /// Crosses the boundary along an axis, and tells whether that leads to another voxel of the
    /// block.
    pub fn advance(&mut self, axis: Axis) -> (r: bool)
        requires
            old(self).wf(),
        ensures
            final(self).block_origin == old(self).block_origin,
            final(self).block_max == old(self).block_max,
            final(self).step == old(self).step,
            final(self).normal == crossed_normal(old(self).step, axis),
            r == in_box(
                stepped(old(self).voxel, old(self).step, axis),
                old(self).block_origin,
                old(self).block_max,
            ),
            r ==> final(self).wf() && triple(final(self).voxel) == stepped(
                old(self).voxel,
                old(self).step,
                axis,
            ) && final(self).remaining() == old(self).remaining() - 1,
            r ==> final(self).voxel.x + final(self).normal.x == old(self).voxel.x,
            r ==> final(self).voxel.y + final(self).normal.y == old(self).voxel.y,
            r ==> final(self).voxel.z + final(self).normal.z == old(self).voxel.z,
            final(self).normal.x == (if axis == Axis::X {
                -old(self).step.x
            } else {
                0
            }),
            final(self).normal.y == (if axis == Axis::Y {
                -old(self).step.y
            } else {
                0
            }),
            final(self).normal.z == (if axis == Axis::Z {
                -old(self).step.z
            } else {
                0
            }),
    {
        match axis {
            Axis::X => {
                self.normal = IVec3 { x: -self.step.x, y: 0, z: 0 };
                step_axis_range(
                    &mut self.voxel.x,
                    self.step.x,
                    self.block_origin.x,
                    self.block_max.x,
                )
            },
            Axis::Y => {
                self.normal = IVec3 { x: 0, y: -self.step.y, z: 0 };
                step_axis_range(
                    &mut self.voxel.y,
                    self.step.y,
                    self.block_origin.y,
                    self.block_max.y,
                )
            },
            Axis::Z => {
                self.normal = IVec3 { x: 0, y: 0, z: -self.step.z };
                step_axis_range(
                    &mut self.voxel.z,
                    self.step.z,
                    self.block_origin.z,
                    self.block_max.z,
                )
            },
        }
    }
}

/// A step leads to the next cell along its axis and stays where it is along the others. The normal
/// of the boundary that it crosses leads back to the cell that was left, against the step.
pub proof fn law_normal_leads_back(before: UVec3, after: UVec3, step: IVec3, axis: Axis)
    requires
        unit_steps(step),
        triple(after) == stepped(before, step, axis),
    ensures
        ({
            let normal = crossed_normal(step, axis);
            &&& after.x + normal.x == before.x
            &&& after.y + normal.y == before.y
            &&& after.z + normal.z == before.z
            &&& normal.x * step.x + normal.y * step.y + normal.z * step.z == -1
        }),
        after.x == before.x + (if axis == Axis::X {
            step.x as int
        } else {
            0
        }),
        after.y == before.y + (if axis == Axis::Y {
            step.y as int
        } else {
            0
        }),
        after.z == before.z + (if axis == Axis::Z {
            step.z as int
        } else {
            0
        }),
{
    let normal = crossed_normal(step, axis);
    assert(normal.x * step.x + normal.y * step.y + normal.z * step.z == -1) by (nonlinear_arith)
        requires
            unit_steps(step),
            normal == crossed_normal(step, axis),
    ;
}

/// A step from a cell of a box stays in the box just where there is another cell ahead along its
/// axis.
pub proof fn law_step_stays_in_box(cell: UVec3, step: IVec3, axis: Axis, min: UVec3, max: UVec3)
    requires
        unit_steps(step),
        min.x <= cell.x < max.x,
        min.y <= cell.y < max.y,
        min.z <= cell.z < max.z,
    ensures
        in_box(stepped(cell, step, axis), min, max) <==> {
            &&& axis == Axis::X && step.x == 1 ==> cell.x + 1 < max.x
            &&& axis == Axis::X && step.x == -1 ==> cell.x > min.x
            &&& axis == Axis::Y && step.y == 1 ==> cell.y + 1 < max.y
            &&& axis == Axis::Y && step.y == -1 ==> cell.y > min.y
            &&& axis == Axis::Z && step.z == 1 ==> cell.z + 1 < max.z
            &&& axis == Axis::Z && step.z == -1 ==> cell.z > min.z
        },
{
}

/// The voxel at a position is that of the position along each axis along which the position lies
/// in the model, and the last one along the others.
pub proof fn law_clamped_voxel(model: DenseVoxelGpu, position: UVec3)
    requires
        model.size.x > 0,
        model.size.y > 0,
        model.size.z > 0,
    ensures
        ({
            let voxel = clamped_voxel(model, position);
            &&& position.x < model.size.x ==> voxel.x == position.x
            &&& position.y < model.size.y ==> voxel.y == position.y
            &&& position.z < model.size.z ==> voxel.z == position.z
            &&& position.x >= model.size.x ==> voxel.x + 1 == model.size.x
            &&& position.y >= model.size.y ==> voxel.y + 1 == model.size.y
            &&& position.z >= model.size.z ==> voxel.z + 1 == model.size.z
        }),
{
}

/// A value moved between two others is the value itself where it lies between them, and else the
/// nearer of the two.
pub proof fn law_clamped(value: u32, min: u32, max: u32)
    requires
        min <= max,
    ensures
        min <= value <= max ==> clamped(value, min, max) == value,
        value <= min ==> clamped(value, min, max) == min,
        value >= max ==> clamped(value, min, max) == max,
{
}

/// A ray crosses no more block boundaries than the model has blocks along all axes.
pub proof fn law_block_walk_ends(walk: BlockWalk)
    requires
        walk.wf(),
    ensures
        0 <= walk.remaining() <= walk.extent.x + walk.extent.y + walk.extent.z - 3,
{
}

/// Inside a block a ray crosses at most nine boundaries.
pub proof fn law_voxel_walk_ends(walk: VoxelWalk)
    requires
        walk.wf(),
    ensures
        0 <= walk.remaining() <= 9,
{
}

/// What a ray finds at a voxel is what is read of that voxel of the model.
pub proof fn law_probe_reads_model(
    model: DenseVoxelGpu,
    blocks: BlockWalk,
    voxels: VoxelWalk,
    occupancy: Seq<u64>,
    refs: Seq<u32>,
    pages: Seq<u8>,
)
    requires
        blocks.inv(model),
        voxels.wf(),
        voxels.block_origin.x == blocks.block.x * 4,
        voxels.block_origin.y == blocks.block.y * 4,
        voxels.block_origin.z == blocks.block.z * 4,
        voxels.block_max.x <= model.size.x,
        voxels.block_max.y <= model.size.y,
        voxels.block_max.z <= model.size.z,
    ensures
        layout::in_bounds(dense::coords(voxels.voxel), model.extents()),
        dense::voxel_material_spec(model, occupancy, refs, pages, voxels.voxel) == (
        if bits::bit64(occupancy[blocks.index()], dense::local_of(voxels.local()) as u64) {
            dense::local_material(refs[blocks.index()], pages, dense::local_of(voxels.local()))
        } else {
            dense::INVALID_MATERIAL
        }),
{
}

} // verus!
