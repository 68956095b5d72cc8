//! What one thread of the mesh shader does.

use super::dense;
use super::mesh;
use super::mesh::RenderParams;
use super::mesh::VisibleCluster;
use crate::dense::layout;
use crate::math;
use crate::math::UVec3;
use crate::math::UVec4;
use vstd::prelude::*;

verus! {

/// The block that a thread works on: the parameters of its instance, the size of its model, its
/// smallest voxel, and its place in the storage of the model.
#[derive(Clone, Copy, Debug, PartialEq, Eq, Structural)]
pub struct MeshBlock {
    pub params_index: u32,
    pub dense_size: UVec3,
    pub origin: UVec3,
    pub storage_index: u32,
}

/// The size of the model of an instance.
pub open spec fn instance_size(params: RenderParams) -> UVec3 {
    mesh::unpacked_size(params.resource_handles.w)
}

/// Whether a control and the instances it counts fit: the instances are there, their first blocks
/// grow, and none has more blocks than its model.
pub open spec fn instances_ok(params: Seq<RenderParams>, control: RenderParams) -> bool {
    let first = control.mesh_params.w as int;
    let count = control.mesh_params.x as int;
    &&& first + count <= params.len()
    &&& first + count <= u32::MAX
    &&& mesh::bases_sorted(params, first, count)
    &&& forall|i: int|
        first <= i < first + count ==> (#[trigger] params[i]).mesh_params.x
            <= layout::block_count_spec(dense::coords(instance_size(params[i])))
}

/// Whether a block is the one that a thread works on, given its instance.
pub open spec fn is_block_of(params: RenderParams, thread: u32, block: MeshBlock) -> bool {
    let extent = mesh::blocks_of(instance_size(params));
    let local = thread - params.mesh_params.w;
    &&& block.dense_size == instance_size(params)
    &&& block.storage_index == local
    &&& block.origin.x == local % extent.x as int * 4
    &&& block.origin.y == local / extent.x as int % extent.y as int * 4
    &&& block.origin.z == local / extent.x as int / extent.y as int * 4
}

/// The first part of a thread: it sets the draw arguments where a frame starts or its clusters have
/// been counted, and otherwise finds the block to work on, where there is one.
pub fn mesh_main(
    thread: u32,
    control: &RenderParams,
    params: &[RenderParams],
    draw_args: &mut [u32; 4],
) -> (r: Option<MeshBlock>)
    requires
        instances_ok(params@, *control),
    ensures
        final(draw_args)@ == (if thread == 0 && control.mesh_params.z == 0 {
            seq![36u32, 0, 0, 0]
        } else if thread == 0 && control.mesh_params.z == 2 {
            seq![36u32, math::min_of(old(draw_args)@[1], control.mesh_params.y), 0, 0]
        } else {
            old(draw_args)@
        }),
        r matches Some(block) ==> {
            &&& control.mesh_params.z != 0
            &&& control.mesh_params.z != 2
            &&& mesh::instance_of(
                params@,
                control.mesh_params.w as int,
                control.mesh_params.x as int,
                thread,
                block.params_index as int,
            )
            &&& is_block_of(params@[block.params_index as int], thread, block)
            &&& mesh::cube_fits(block.origin, 16)
            &&& block.storage_index < layout::block_count_spec(dense::coords(block.dense_size))
        },
        r is None ==> control.mesh_params.z == 0 || control.mesh_params.z == 2 || forall|index: int|
            !#[trigger] mesh::instance_of(
                params@,
                control.mesh_params.w as int,
                control.mesh_params.x as int,
                thread,
                index,
            ),
{
    if !mesh::mesh_mode(control.mesh_params.z, thread, control.mesh_params.y, draw_args) {
        return None;
    }
    match mesh::find_instance(params, control.mesh_params.w, control.mesh_params.x, thread) {
        Some(params_index) => {
            let instance: RenderParams = params[params_index as usize];
            let local_block_index: u32 = thread - instance.mesh_params.w;
            let dense_size: UVec3 = mesh::unpack_dense_size(instance.resource_handles.w);
            let block_extent: UVec3 = UVec3 {
                x: (dense_size.x + 3) / 4,
                y: (dense_size.y + 3) / 4,
                z: (dense_size.z + 3) / 4,
            };
            let block: UVec3 = mesh::dense_block_coords(local_block_index, block_extent);
            proof {
                mesh::lemma_small_blocks(dense_size);
                mesh::law_block_coords(local_block_index, block_extent);
            }
            let origin: UVec3 = UVec3 { x: block.x * 4, y: block.y * 4, z: block.z * 4 };
            let storage_index: u32 = mesh::dense_storage_block_index(block, block_extent);
            Some(MeshBlock { params_index, dense_size, origin, storage_index })
        },
        None => None,
    }
}

/// The block that a thread works on is the one of its instance that is as many blocks on as the
/// thread is past the first of the instance: blocks have four voxels along each axis, and the first
/// axis comes first.
pub proof fn law_thread_works_on_block(params: RenderParams, thread: u32, block: MeshBlock)
    requires
        is_block_of(params, thread, block),
        block.storage_index < layout::block_count_spec(dense::coords(block.dense_size)),
    ensures
        ({
            let packed = params.resource_handles.w;
            let across = (block.dense_size.x + 3) / 4;
            let up = (block.dense_size.y + 3) / 4;
            let back = (block.dense_size.z + 3) / 4;
            let x = block.origin.x / 4;
            let y = block.origin.y / 4;
            let z = block.origin.z / 4;
            &&& block.dense_size.x == packed % 1024 + 1
            &&& block.dense_size.y == packed / 1024 % 1024 + 1
            &&& block.dense_size.z == packed / 1048576 % 1024 + 1
            &&& x < across && y < up && z < back
            &&& block.origin.x == 4 * x && block.origin.y == 4 * y && block.origin.z == 4 * z
            &&& params.mesh_params.w + x + y * across + z * across * up == thread
            &&& block.storage_index == x + y * across + z * across * up
        }),
{
    mesh::law_block_coords(block.storage_index, mesh::blocks_of(block.dense_size));
}

/// A cube that becomes a cluster: its smallest voxel, its side, and the materials of its voxels.
pub struct DenseGroup {
    pub min: UVec3,
    pub size: u32,
    pub materials: Vec<u32>,
}

/// The materials of the cubes among the first `n` that have voxels to show, each with its cube.
pub open spec fn shown_groups(
    params: RenderParams,
    occupancy: Seq<u64>,
    refs: Seq<u32>,
    pages: Seq<u8>,
    dense_size: UVec3,
    cubes: Seq<UVec3>,
    size: u32,
    n: nat,
) -> Seq<(UVec3, u32, Seq<u32>)>
    decreases n,
{
    if n == 0 {
        Seq::empty()
    } else {
        let before = shown_groups(
            params,
            occupancy,
            refs,
            pages,
            dense_size,
            cubes,
            size,
            (n - 1) as nat,
        );
        let materials = mesh::cube_materials(
            params,
            occupancy,
            refs,
            pages,
            dense_size,
            cubes[n - 1],
            size,
            size * size * size,
        );
        if materials.len() > 0 {
            before.push((cubes[n - 1], size, materials))
        } else {
            before
        }
    }
}

/// Groups, by their smallest voxels, sides and materials.
pub open spec fn groups_view(groups: Seq<DenseGroup>) -> Seq<(UVec3, u32, Seq<u32>)> {
    Seq::new(groups.len(), |i: int| (groups[i].min, groups[i].size, groups[i].materials@))
}

/// The second part of a thread: the cubes that become clusters, given the side of the cubes that
/// suits the distance.
pub fn mesh_groups(
    params: &RenderParams,
    occupancy: &[u64],
    material_refs: &[u32],
    material_pages: &[u8],
    block: &MeshBlock,
    lod: u32,
) -> (r: Vec<DenseGroup>)
    requires
        mesh::size_readable(block.dense_size, occupancy@, material_refs@, material_pages@),
        mesh::lod_size(lod),
        mesh::cube_fits(block.origin, 16),
        block.storage_index < occupancy@.len(),
    ensures
        ({
            let size = mesh::group_size_of(*params, block.origin, lod);
            let cubes = mesh::block_cubes(
                *params,
                occupancy@[block.storage_index as int],
                block.origin,
                size,
            );
            groups_view(r@) == shown_groups(
                *params,
                occupancy@,
                material_refs@,
                material_pages@,
                block.dense_size,
                cubes,
                size,
                cubes.len(),
            )
        }),
{
    let size: u32 = mesh::block_group_size(params, block.origin, lod);
    let cubes: Vec<UVec3> = mesh::block_groups(
        params,
        occupancy[block.storage_index as usize],
        block.origin,
        size,
    );
    let mut groups: Vec<DenseGroup> = Vec::new();
    let mut i: usize = 0;
    while i < cubes.len()
        invariant
            i <= cubes@.len(),
            mesh::size_readable(block.dense_size, occupancy@, material_refs@, material_pages@),
            mesh::lod_size(size),
            mesh::cube_fits(block.origin, 16),
            cubes@ == mesh::block_cubes(
                *params,
                occupancy@[block.storage_index as int],
                block.origin,
                size,
            ),
            groups_view(groups@) == shown_groups(
                *params,
                occupancy@,
                material_refs@,
                material_pages@,
                block.dense_size,
                cubes@,
                size,
                i as nat,
            ),
        decreases cubes@.len() - i,
    {
        let cube: UVec3 = cubes[i];
        proof {
            mesh::lemma_block_cube_fits(
                *params,
                occupancy@[block.storage_index as int],
                block.origin,
                size,
                i as int,
            );
        }
        let ghost before = groups@;
        if let Some(materials) = mesh::emit_dense_group(
            params,
            occupancy,
            material_refs,
            material_pages,
            block.dense_size,
            cube,
            size,
        ) {
            groups.push(DenseGroup { min: cube, size, materials });
            assert(groups_view(groups@) =~= groups_view(before).push(
                (cube, size, groups@.last().materials@),
            ));
        }
        i += 1;
    }
    groups
}

/// The third part of a thread: a cube becomes a cluster unless it is out of sight. Told is whether
/// it is in view, whether clusters behind others are left out, and whether it is behind others; a
/// cube that is out of sight changes nothing.
pub fn emit_group(
    group: &DenseGroup,
    visible: bool,
    occlusion_enabled: bool,
    occluded: bool,
    max_clusters: u32,
    draw_args: &mut [u32; 4],
    params_index: u32,
    local_min_size: UVec4,
    color: UVec4,
    packed_pbr: u32,
) -> (r: Option<(u32, VisibleCluster)>)
    ensures
        !visible || (occlusion_enabled && occluded) ==> r is None && final(draw_args)@ == old(
            draw_args,
        )@,
        visible && !(occlusion_enabled && occluded) ==> {
            &&& final(draw_args)@ == old(draw_args)@.update(
                1,
                if old(draw_args)@[1] == u32::MAX {
                    0u32
                } else {
                    (old(draw_args)@[1] + 1) as u32
                },
            )
            &&& r == (if old(draw_args)@[1] < max_clusters {
                Some(
                    (
                        old(draw_args)@[1],
                        VisibleCluster {
                            local_min_size,
                            color,
                            meta: UVec4 { x: params_index, y: packed_pbr, z: group.size, w: 0 },
                        },
                    ),
                )
            } else {
                None
            })
        },
{
    if !visible {
        return None;
    }
    if occlusion_enabled && occluded {
        return None;
    }
    mesh::emit_cluster(
        max_clusters,
        draw_args,
        params_index,
        local_min_size,
        group.size,
        color,
        packed_pbr,
    )
}

/// The groups of a block are its cubes in which a voxel is shown, in order, each with its materials.
/// Told is the place of each among the cubes.
pub proof fn law_groups_show_voxels(
    params: RenderParams,
    occupancy: Seq<u64>,
    refs: Seq<u32>,
    pages: Seq<u8>,
    dense_size: UVec3,
    cubes: Seq<UVec3>,
    size: u32,
    n: nat,
) -> (places: Seq<int>)
    requires
        n <= cubes.len(),
        0 < size,
        forall|k: int| 0 <= k < n ==> mesh::cube_fits(#[trigger] cubes[k], size),
    ensures
        ({
            let groups = shown_groups(
                params,
                occupancy,
                refs,
                pages,
                dense_size,
                cubes,
                size,
                n,
            );
            &&& groups.len() == places.len()
            &&& forall|i: int|
                0 <= i < places.len() ==> {
                    &&& 0 <= #[trigger] places[i] < n
                    &&& groups[i].0 == cubes[places[i]]
                    &&& groups[i].1 == size
                    &&& groups[i].2 == mesh::cube_materials(
                        params,
                        occupancy,
                        refs,
                        pages,
                        dense_size,
                        cubes[places[i]],
                        size,
                        size * size * size,
                    )
                }
        }),
        forall|i: int, j: int|
            0 <= i < j < places.len() ==> #[trigger] places[i] < #[trigger] places[j],
        forall|k: int|
            0 <= k < n ==> (places.contains(k) <==> shows_voxel(
                params,
                occupancy,
                dense_size,
                #[trigger] cubes[k],
                size,
            )),
    decreases n,
{
    if n == 0 {
        Seq::empty()
    } else {
        let before = law_groups_show_voxels(
            params,
            occupancy,
            refs,
            pages,
            dense_size,
            cubes,
            size,
            (n - 1) as nat,
        );
        let cube = cubes[n - 1];
        let voxels = mesh::law_cube_materials(
            params,
            occupancy,
            refs,
            pages,
            dense_size,
            cube,
            size,
        );
        if voxels.len() > 0 {
            assert(voxels.contains(voxels[0]));
            let places = before.push(n - 1);
            assert forall|k: int| 0 <= k < n implies (places.contains(k) <==> shows_voxel(
                params,
                occupancy,
                dense_size,
                #[trigger] cubes[k],
                size,
            )) by {
                if k == n - 1 {
                    assert(places[places.len() - 1] == k);
                } else {
                    if before.contains(k) {
                        let i = choose|i: int| 0 <= i < before.len() && before[i] == k;
                        assert(places[i] == k);
                    }
                }
            }
            places
        } else {
            assert forall|voxel: UVec3|
                !#[trigger] mesh::stands_in_cube(
                    params,
                    occupancy,
                    dense_size,
                    cube,
                    size,
                    voxel,
                ) by {
                assert(!voxels.contains(voxel));
            }
            before
        }
    }
}

/// Whether some voxel of a cube lies in the model, is shown and is occupied.
pub open spec fn shows_voxel(
    params: RenderParams,
    occupancy: Seq<u64>,
    dense_size: UVec3,
    cube: UVec3,
    size: u32,
) -> bool {
    exists|voxel: UVec3|
        #[trigger] mesh::stands_in_cube(params, occupancy, dense_size, cube, size, voxel)
}

} // verus!
