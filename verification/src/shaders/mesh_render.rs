//! The integer part of drawing clusters, and of looking for what stands between them and the
//! light.

use super::dense::DenseVoxelHit;
use super::mesh::RenderParams;
use crate::math;
use crate::math::IVec3;
use crate::math::UVec3;
use crate::math::UVec4;
use vstd::prelude::*;

verus! {

/// The handles that the shaders that draw clusters are called with.
#[derive(Clone, Copy, Debug, PartialEq, Eq, Structural)]
pub struct MeshRenderPushConstants {
    pub params_handle: u32,
    pub params_index: u32,
    pub clusters_handle: u32,
    pub indirect_handle: u32,
}

/// The size, handles and range of a model that rays are traced through.
#[derive(Clone, Copy, Debug, PartialEq, Eq, Structural)]
pub struct RtDenseModel {
    pub size: UVec4,
    pub resource_handles: UVec4,
    pub cull_min: UVec4,
    pub cull_max: UVec4,
}

/// The number of rays that are tried for one model.
pub const MAX_TRIES: u32 = 8;

/// Which of the four corners of a face a vertex is: the face is drawn as two triangles.
pub open spec fn face_corner(vertex_id: u32) -> int {
    let tri = vertex_id % 6;
    if tri == 0 || tri == 3 {
        0
    } else if tri == 1 {
        1
    } else if tri == 2 || tri == 4 {
        2
    } else {
        3
    }
}

/// Corner `corner` of face `face` of the unit cube. Two faces stand on each axis, the one at zero
/// first, and the corners of a face follow each other around it.
pub open spec fn unit_corner(face: int, corner: int) -> UVec3 {
    let along = corner == 2 || corner == 3;
    let across = corner == 1 || corner == 2;
    let one = |b: bool|
        if b {
            1u32
        } else {
            0u32
        };
    if face == 0 {
        UVec3 { x: 0, y: one(along), z: one(across) }
    } else if face == 1 {
        UVec3 { x: 1, y: one(across), z: one(along) }
    } else if face == 2 {
        UVec3 { x: one(across), y: 0, z: one(along) }
    } else if face == 3 {
        UVec3 { x: one(along), y: 1, z: one(across) }
    } else if face == 4 {
        UVec3 { x: one(along), y: one(across), z: 0 }
    } else {
        UVec3 { x: one(across), y: one(along), z: 1 }
    }
}

/// The face that a vertex belongs to. Vertices past the last face belong to it.
pub open spec fn face_of(vertex_id: u32) -> int {
    if vertex_id / 6 < 5 {
        (vertex_id / 6) as int
    } else {
        5
    }
}

/// The normal of a face of the unit cube.
pub open spec fn face_normal(face: int) -> IVec3 {
    let out = if face % 2 == 0 {
        -1i32
    } else {
        1i32
    };
    if face / 2 == 0 {
        IVec3 { x: out, y: 0, z: 0 }
    } else if face / 2 == 1 {
        IVec3 { x: 0, y: out, z: 0 }
    } else {
        IVec3 { x: 0, y: 0, z: out }
    }
}

/// The corner of the unit cube that a vertex stands at.
pub fn cube_corner(vertex_id: u32) -> (r: UVec3)
    ensures
        r == unit_corner(face_of(vertex_id), face_corner(vertex_id)),
{
    let tri: u32 = vertex_id % 6;
    let corner_id: usize = if tri == 0 {
        0
    } else if tri == 1 {
        1
    } else if tri == 2 {
        2
    } else if tri == 3 {
        0
    } else if tri == 4 {
        2
    } else {
        3
    };
    let face: u32 = vertex_id / 6;
    let corners: [UVec3; 4] = if face == 0 {
        [UVec3::new(0, 0, 0), UVec3::new(0, 0, 1), UVec3::new(0, 1, 1), UVec3::new(0, 1, 0)]
    } else if face == 1 {
        [UVec3::new(1, 0, 0), UVec3::new(1, 1, 0), UVec3::new(1, 1, 1), UVec3::new(1, 0, 1)]
    } else if face == 2 {
        [UVec3::new(0, 0, 0), UVec3::new(1, 0, 0), UVec3::new(1, 0, 1), UVec3::new(0, 0, 1)]
    } else if face == 3 {
        [UVec3::new(0, 1, 0), UVec3::new(0, 1, 1), UVec3::new(1, 1, 1), UVec3::new(1, 1, 0)]
    } else if face == 4 {
        [UVec3::new(0, 0, 0), UVec3::new(0, 1, 0), UVec3::new(1, 1, 0), UVec3::new(1, 0, 0)]
    } else {
        [UVec3::new(0, 0, 1), UVec3::new(1, 0, 1), UVec3::new(1, 1, 1), UVec3::new(0, 1, 1)]
    };
    corners[corner_id]
}

/// The normal of the face that a vertex belongs to.
pub fn cube_normal(vertex_id: u32) -> (r: IVec3)
    ensures
        r == face_normal(face_of(vertex_id)),
{
    let face: u32 = vertex_id / 6;
    if face == 0 {
        IVec3 { x: -1, y: 0, z: 0 }
    } else if face == 1 {
        IVec3 { x: 1, y: 0, z: 0 }
    } else if face == 2 {
        IVec3 { x: 0, y: -1, z: 0 }
    } else if face == 3 {
        IVec3 { x: 0, y: 1, z: 0 }
    } else if face == 4 {
        IVec3 { x: 0, y: 0, z: -1 }
    } else {
        IVec3 { x: 0, y: 0, z: 1 }
    }
}

/// The cross product of the edges of a triangle that start at its first corner.
pub open spec fn edges_cross(a: UVec3, b: UVec3, c: UVec3) -> (int, int, int) {
    let u = (b.x - a.x, b.y - a.y, b.z - a.z);
    let v = (c.x - a.x, c.y - a.y, c.z - a.z);
    (u.1 * v.2 - u.2 * v.1, u.2 * v.0 - u.0 * v.2, u.0 * v.1 - u.1 * v.0)
}

/// Both triangles of a face turn around its normal.
pub proof fn law_cube_winding(face: int)
    requires
        0 <= face < 6,
    ensures
        ({
            let n = face_normal(face);
            let normal = (n.x as int, n.y as int, n.z as int);
            &&& edges_cross(unit_corner(face, 0), unit_corner(face, 1), unit_corner(face, 2))
                == normal
            &&& edges_cross(unit_corner(face, 0), unit_corner(face, 2), unit_corner(face, 3))
                == normal
        }),
{
    let corner = |i: int| unit_corner(face, i);
    lemma_cross(corner(0), corner(1), corner(2));
    lemma_cross(corner(0), corner(2), corner(3));
}

/// Six vertices make a face, as two triangles that share the edge between its first and its third
/// corner. The corners of a face are the four that lie on the side of the cube that its normal
/// points to, and the faces stand on the axes in order, first the side at zero. Both triangles turn
/// around the normal.
pub proof fn law_vertices_make_faces(face: u32)
    requires
        face < 6,
    ensures
        ({
            let corner = |i: int| unit_corner(
                face_of((6 * face + i) as u32),
                face_corner((6 * face + i) as u32),
            );
            let normal = face_normal(face_of((6 * face) as u32));
            let side = face % 2;
            &&& corner(3) == corner(0)
            &&& corner(4) == corner(2)
            &&& corner(0) != corner(1) && corner(0) != corner(2) && corner(0) != corner(5)
            &&& corner(1) != corner(2) && corner(1) != corner(5) && corner(2) != corner(5)
            &&& forall|i: int|
                0 <= i < 6 ==> {
                    let at = #[trigger] corner(i);
                    &&& at.x <= 1 && at.y <= 1 && at.z <= 1
                    &&& face / 2 == 0 ==> at.x == side
                    &&& face / 2 == 1 ==> at.y == side
                    &&& face / 2 == 2 ==> at.z == side
                }
            &&& normal.x == (if face / 2 == 0 { 2 * side - 1 } else { 0 })
            &&& normal.y == (if face / 2 == 1 { 2 * side - 1 } else { 0 })
            &&& normal.z == (if face / 2 == 2 { 2 * side - 1 } else { 0 })
            &&& edges_cross(corner(0), corner(1), corner(2)) == (
                normal.x as int,
                normal.y as int,
                normal.z as int,
            )
            &&& edges_cross(corner(3), corner(4), corner(5)) == (
                normal.x as int,
                normal.y as int,
                normal.z as int,
            )
        }),
{
    assert forall|i: int| 0 <= i < 6 implies #[trigger] face_of((6 * face + i) as u32) == face by {}
    law_cube_winding(face as int);
}

proof fn lemma_cross(a: UVec3, b: UVec3, c: UVec3)
    ensures
        ({
            let u = (b.x - a.x, b.y - a.y, b.z - a.z);
            let v = (c.x - a.x, c.y - a.y, c.z - a.z);
            edges_cross(a, b, c) == (
                signed(u.1, v.2) - signed(u.2, v.1),
                signed(u.2, v.0) - signed(u.0, v.2),
                signed(u.0, v.1) - signed(u.1, v.0),
            )
        }),
{
    let u = (b.x - a.x, b.y - a.y, b.z - a.z);
    let v = (c.x - a.x, c.y - a.y, c.z - a.z);
    lemma_signed(u.1, v.2);
    lemma_signed(u.2, v.1);
    lemma_signed(u.2, v.0);
    lemma_signed(u.0, v.2);
    lemma_signed(u.0, v.1);
    lemma_signed(u.1, v.0);
}

/// The product of two numbers, told by cases where the first is small.
spec fn signed(a: int, b: int) -> int {
    if a == 0 {
        0
    } else if a == 1 {
        b
    } else if a == -1 {
        -b
    } else {
        a * b
    }
}

proof fn lemma_signed(a: int, b: int)
    by (nonlinear_arith)
    ensures
        a == 0 ==> a * b == 0,
        a == 1 ==> a * b == b,
        a == -1 ==> a * b == -b,
{
}

/// Whether a voxel is in the part of a model that rays meet.
pub open spec fn rt_shown(model: RtDenseModel, voxel: UVec3) -> bool {
    &&& model.cull_min.x <= voxel.x < math::min_of(model.cull_max.x, model.size.x)
    &&& model.cull_min.y <= voxel.y < math::min_of(model.cull_max.y, model.size.y)
    &&& model.cull_min.z <= voxel.z < math::min_of(model.cull_max.z, model.size.z)
}

/// Whether a voxel is in the part of a model that rays meet.
pub fn voxel_in_rt_cull(model: &RtDenseModel, voxel: UVec3) -> (r: bool)
    ensures
        r == rt_shown(*model, voxel),
        r <==> {
            &&& model.cull_min.x <= voxel.x < model.cull_max.x && voxel.x < model.size.x
            &&& model.cull_min.y <= voxel.y < model.cull_max.y && voxel.y < model.size.y
            &&& model.cull_min.z <= voxel.z < model.cull_max.z && voxel.z < model.size.z
        },
{
    let max: UVec3 = UVec3::new(model.cull_max.x, model.cull_max.y, model.cull_max.z).min(
        UVec3::new(model.size.x, model.size.y, model.size.z),
    );
    voxel.x >= model.cull_min.x && voxel.y >= model.cull_min.y && voxel.z >= model.cull_min.z
        && voxel.x < max.x && voxel.y < max.y && voxel.z < max.z
}

/// What becomes of a ray through a model once a voxel has been looked for.
#[derive(Clone, Copy, Debug, PartialEq, Eq, Structural)]
pub enum RtOutcome {
    /// The ray meets the voxel.
    Hit,
    /// The ray meets nothing.
    Miss,
    /// The ray goes on behind the voxel.
    Retry,
}

/// What becomes of a ray through a model once a voxel has been looked for. A voxel that rays do
/// not meet is passed, a few times at most, and as long as the ray does not end before it.
pub fn rt_outcome(model: &RtDenseModel, tries: u32, hit: &DenseVoxelHit, ends: bool) -> (r: RtOutcome)
    requires
        tries < MAX_TRIES,
    ensures
        r == RtOutcome::Hit <==> hit.material != super::dense::INVALID_MATERIAL && rt_shown(
            *model,
            hit.voxel,
        ),
        r == RtOutcome::Retry <==> hit.material != super::dense::INVALID_MATERIAL && !rt_shown(
            *model,
            hit.voxel,
        ) && !ends && tries + 1 < MAX_TRIES,
        r == RtOutcome::Retry <==> hit.material != 0xffff_ffff && r != RtOutcome::Hit && !ends
            && tries < 7,
{
    if !hit.is_hit() {
        return RtOutcome::Miss;
    }
    if voxel_in_rt_cull(model, hit.voxel) {
        return RtOutcome::Hit;
    }
    if ends || tries + 1 == MAX_TRIES {
        return RtOutcome::Miss;
    }
    RtOutcome::Retry
}

/// Whether there is a scene to trace rays through.
pub fn rt_scene_exists(draw_params: &RenderParams) -> (r: bool)
    ensures
        r == (draw_params.resource_handles.w > 0 && draw_params.cull_min.x > 0
            && draw_params.cull_min.y > 0),
{
    let node_count: u32 = draw_params.resource_handles.w;
    let primitive_count: u32 = draw_params.cull_min.x;
    let model_count: u32 = draw_params.cull_min.y;
    !(node_count == 0 || primitive_count == 0 || model_count == 0)
}

/// The model that a primitive stands for, where it stands for one.
pub fn rt_primitive_model(
    primitive_id: u32,
    primitive_count: u32,
    model_count: u32,
    primitive_to_model: &[u32],
) -> (r: Option<u32>)
    requires
        primitive_count <= primitive_to_model@.len(),
    ensures
        r == (if primitive_id < primitive_count && primitive_to_model@[primitive_id as int] != u32::MAX
            && primitive_to_model@[primitive_id as int] < model_count {
            Some(primitive_to_model@[primitive_id as int])
        } else {
            None
        }),
{
    if primitive_id >= primitive_count {
        return None;
    }
    let model_index: u32 = primitive_to_model[primitive_id as usize];
    if model_index == u32::MAX || model_index >= model_count {
        return None;
    }
    Some(model_index)
}

/// One of the four bytes of a number.
pub fn unpack_byte(packed: u32, shift: u32) -> (r: u32)
    requires
        shift == 0 || shift == 8 || shift == 16 || shift == 24,
    ensures
        r == super::bvh::cwbvh::byte_of(packed as int, shift as int / 8),
{
    super::bvh::cwbvh::extract_byte(packed, shift / 8)
}

/// Reading the bytes of a material back gives those that were written.
pub proof fn law_pbr_bytes(a: u32, b: u32, c: u32, d: u32)
    requires
        a < 256,
        b < 256,
        c < 256,
        d < 256,
    ensures
        super::bvh::cwbvh::byte_of(super::mesh::packed_bytes(a, b, c, d), 0) == a,
        super::bvh::cwbvh::byte_of(super::mesh::packed_bytes(a, b, c, d), 1) == b,
        super::bvh::cwbvh::byte_of(super::mesh::packed_bytes(a, b, c, d), 2) == c,
        super::bvh::cwbvh::byte_of(super::mesh::packed_bytes(a, b, c, d), 3) == d,
{
    reveal_with_fuel(vstd::arithmetic::power::pow, 4);
    let packed = super::mesh::packed_bytes(a, b, c, d);
    assert(packed / 256 == b + c * 256 + d * 65536);
    assert(packed / 65536 == c + d * 256);
    assert(packed / 16777216 == d);
}

/// A vertex index without its base.
pub fn vertex_id_without_base(vertex_index: u32, base_vertex: u32) -> (r: u32)
    ensures
        r == (vertex_index - base_vertex) % 0x1_0000_0000,
{
    vertex_index.wrapping_sub(base_vertex)
}

/// An instance index without its base.
pub fn instance_id_without_base(instance_index: u32, base_instance: u32) -> (r: u32)
    ensures
        r == (instance_index - base_instance) % 0x1_0000_0000,
{
    instance_index.wrapping_sub(base_instance)
}

/// Whether a vertex is one that is drawn.
pub fn vertex_drawn(draw_params: &RenderParams, vertex_id: u32, instance_id: u32) -> (r: bool)
    ensures
        r == (vertex_id < draw_params.mesh_params.x && instance_id < draw_params.mesh_params.y),
{
    !(vertex_id >= draw_params.mesh_params.x || instance_id >= draw_params.mesh_params.y)
}

} // verus!
