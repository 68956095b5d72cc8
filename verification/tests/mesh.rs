use dust::dense::geometry::DenseVoxelGeometry;
use dust::dense::material::DenseVoxelMaterial;
use dust::dense::model::DenseVoxelModel;
use dust::math::IVec3;
use dust::math::UVec2;
use dust::math::UVec3;
use dust::math::UVec4;
use dust::shaders::dense::DenseVoxelHit;
use dust::shaders::mesh;
use dust::shaders::mesh::RenderParams;
use dust::shaders::mesh_main;
use dust::shaders::mesh_main::DenseGroup;
use dust::shaders::mesh_render;
use dust::shaders::mesh_render::RtDenseModel;
use dust::shaders::mesh_render::RtOutcome;
use dust::shaders::post;
use dust::shaders::pyramid;
use dust::shaders::pyramid::DepthPyramidMip;
use dust::shaders::pyramid::DepthPyramidPushConstants;

fn uvec4(x: u32, y: u32, z: u32, w: u32) -> UVec4 {
    UVec4 { x, y, z, w }
}

fn params(count: u32, mode: u32, first: u32) -> RenderParams {
    RenderParams {
        mesh_params: uvec4(count, 100, mode, first),
        resource_handles: uvec4(0, 0, 0, mesh::pack_dense_size([10, 9, 6])),
        cull_min: uvec4(0, 0, 0, 0),
        cull_max: uvec4(10, 9, 6, 0),
    }
}

#[test]
fn cull_ranges() {
    let p = params(0, 0, 0);
    assert!(mesh::voxel_in_cull_range(&p, UVec3::new(9, 8, 5)));
    assert!(!mesh::voxel_in_cull_range(&p, UVec3::new(10, 8, 5)));
    assert!(mesh::range_intersects_cull(&p, UVec3::new(8, 8, 4), 4));
    assert!(!mesh::range_contained_by_cull(&p, UVec3::new(8, 8, 4), 4));
    assert!(mesh::range_contained_by_cull(&p, UVec3::new(4, 4, 0), 4));
    assert!(!mesh::range_intersects_cull(&p, UVec3::new(12, 0, 0), 4));
}

#[test]
fn sizes_are_packed() {
    let packed = mesh::pack_dense_size([10, 9, 6]);
    assert_eq!(packed, 9 | (8 << 10) | (5 << 20));
    assert_eq!(mesh::unpack_dense_size(packed), UVec3::new(10, 9, 6));
    assert_eq!(mesh::unpack_dense_size(mesh::pack_dense_size([1024, 1, 256])), UVec3::new(1024, 1, 256));
}

#[test]
fn blocks_have_places() {
    let extent = UVec3::new(3, 3, 2);
    let block = mesh::dense_block_coords(14, extent);
    assert_eq!(block, UVec3::new(2, 1, 1));
    assert_eq!(mesh::dense_storage_block_index(block, extent), 14);
    assert_eq!(mesh::voxel_id(UVec3::new(1, 2, 3)), 1 + 8 + 48);
    assert!(mesh::occupied(1 << 57, UVec3::new(1, 2, 3)));
}

#[test]
fn materials_of_references() {
    let mut pages = vec![0u8; 128];
    pages[64 + 57] = 77;
    assert_eq!(mesh::dense_material_id(&pages, 0x8000_0001, UVec3::new(1, 2, 3)), 77);
    assert_eq!(mesh::dense_material_id(&pages, 5, UVec3::new(1, 2, 3)), 5);
    assert_eq!(mesh::dense_material_id(&pages, 0xffff_ffff, UVec3::new(1, 2, 3)), 0);
    assert_eq!(mesh::dense_material_index(5), 5);
    assert_eq!(mesh::dense_material_index(1000), 255);
}

#[test]
fn distances_choose_the_side() {
    assert_eq!(mesh::select_lod_group_size([true, true, true, true]), 1);
    assert_eq!(mesh::select_lod_group_size([false, true, true, true]), 2);
    assert_eq!(mesh::select_lod_group_size([false, false, true, true]), 4);
    assert_eq!(mesh::select_lod_group_size([false, false, false, true]), 8);
    assert_eq!(mesh::select_lod_group_size([false, false, false, false]), 16);
}

#[test]
fn blocks_are_shown_in_cubes() {
    let p = params(0, 0, 0);
    let origin = UVec3::new(4, 4, 0);
    assert_eq!(mesh::block_group_size(&p, origin, 4), 4);
    assert_eq!(mesh::block_group_size(&p, UVec3::new(8, 8, 4), 4), 1);
    assert_eq!(mesh::block_groups(&p, 1, origin, 4), vec![origin]);
    let halves = mesh::block_groups(&p, 1, origin, 2);
    assert_eq!(halves.len(), 8);
    assert_eq!(halves[1], UVec3::new(4, 4, 2));
    assert_eq!(halves[2], UVec3::new(4, 6, 0));
    assert_eq!(halves[4], UVec3::new(6, 4, 0));
    assert_eq!(mesh::block_groups(&p, 1, origin, 1).len(), 64);
    assert!(mesh::block_groups(&p, 0, origin, 1).is_empty());
    assert!(mesh::block_groups(&p, 1, origin, 8).is_empty());
    assert_eq!(mesh::block_groups(&p, 1, UVec3::new(8, 0, 0), 8), vec![UVec3::new(8, 0, 0)]);
}

#[test]
fn instances_are_searched() {
    let all = vec![params(0, 1, 0), params(4, 0, 0), params(0, 0, 4), params(6, 0, 4), params(2, 0, 12)];
    assert_eq!(mesh::find_instance(&all, 1, 4, 0), Some(1));
    assert_eq!(mesh::find_instance(&all, 1, 4, 3), Some(1));
    assert_eq!(mesh::find_instance(&all, 1, 4, 4), Some(3));
    assert_eq!(mesh::find_instance(&all, 1, 4, 9), Some(3));
    assert_eq!(mesh::find_instance(&all, 1, 4, 10), None);
    assert_eq!(mesh::find_instance(&all, 1, 4, 13), Some(4));
    assert_eq!(mesh::find_instance(&all, 1, 4, 14), None);
    assert_eq!(mesh::find_instance(&all, 1, 0, 0), None);
}

#[test]
fn modes_set_the_draw_arguments() {
    let mut args = [9u32, 200, 9, 9];
    assert!(!mesh::mesh_mode(2, 0, 100, &mut args));
    assert_eq!(args, [36, 100, 0, 0]);
    assert!(!mesh::mesh_mode(0, 1, 100, &mut args));
    assert_eq!(args, [36, 100, 0, 0]);
    assert!(!mesh::mesh_mode(0, 0, 100, &mut args));
    assert_eq!(args, [36, 0, 0, 0]);
    assert!(mesh::mesh_mode(5, 0, 100, &mut args));
    assert!(mesh::occlusion_enabled(5));
    assert!(mesh::occlusion_enabled(4));
    assert!(!mesh::occlusion_enabled(1));
}

#[test]
fn clusters_are_counted() {
    let mut args = [36u32, 1, 0, 0];
    let zero = uvec4(0, 0, 0, 0);
    let (index, cluster) =
        mesh::emit_cluster(2, &mut args, 7, uvec4(1, 2, 3, 4), 2, uvec4(5, 6, 7, 8), 99).unwrap();
    assert_eq!(index, 1);
    assert_eq!(cluster.local_min_size, uvec4(1, 2, 3, 4));
    assert_eq!(cluster.color, uvec4(5, 6, 7, 8));
    assert_eq!(cluster.meta, uvec4(7, 99, 2, 0));
    assert_eq!(mesh::emit_cluster(2, &mut args, 7, zero, 2, zero, 99), None);
    assert_eq!(args[1], 3);
}

#[test]
fn cubes_out_of_sight_are_not_counted() {
    let group = DenseGroup { min: UVec3::new(4, 0, 0), size: 2, materials: vec![5] };
    let emit = |visible: bool, occlusion: bool, occluded: bool, room: u32, args: &mut [u32; 4]| {
        let (place, color) = (uvec4(1, 2, 3, 4), uvec4(5, 6, 7, 8));
        mesh_main::emit_group(&group, visible, occlusion, occluded, room, args, 11, place, color, 12)
    };
    let mut args = [36, 3, 0, 0];
    assert!(emit(false, false, false, 9, &mut args).is_none());
    assert!(emit(true, true, true, 9, &mut args).is_none());
    assert_eq!(args, [36, 3, 0, 0]);

    let (at, cluster) = emit(true, false, true, 9, &mut args).unwrap();
    assert_eq!((at, args), (3, [36, 4, 0, 0]));
    assert_eq!(cluster.local_min_size, uvec4(1, 2, 3, 4));
    assert_eq!(cluster.color, uvec4(5, 6, 7, 8));
    assert_eq!(cluster.meta, uvec4(11, 12, 2, 0));
    assert_eq!(emit(true, true, false, 9, &mut args).unwrap().0, 4);
    assert!(emit(true, true, false, 5, &mut args).is_none());
    assert_eq!(args, [36, 6, 0, 0]);
}

#[test]
fn properties_are_packed() {
    let packed = mesh::pack_pbr(1, 2, 3, 4);
    assert_eq!(packed, 0x0403_0201);
    assert_eq!(mesh_render::unpack_byte(packed, 0), 1);
    assert_eq!(mesh_render::unpack_byte(packed, 24), 4);
}

#[test]
fn threads_work_on_blocks() {
    let mut control = params(2, 1, 1);
    let mut first = params(18, 0, 0);
    first.cull_min.w = 5;
    let second = params(18, 0, 18);
    let all = vec![control, first, second];
    let mut args = [0u32; 4];
    let block = mesh_main::mesh_main(18 + 14, &control, &all, &mut args).unwrap();
    assert_eq!(block.params_index, 2);
    assert_eq!(block.dense_size, UVec3::new(10, 9, 6));
    assert_eq!(block.origin, UVec3::new(8, 4, 4));
    assert_eq!(block.storage_index, 14);
    assert_eq!(mesh_main::mesh_main(36, &control, &all, &mut args), None);
    control.mesh_params.z = 0;
    assert_eq!(mesh_main::mesh_main(0, &control, &all, &mut args), None);
    assert_eq!(args, [36, 0, 0, 0]);
}

#[test]
fn cubes_with_voxels_become_groups() {
    let size = [10, 9, 6];
    let mut geometry = DenseVoxelGeometry::with_size(size);
    let mut material = DenseVoxelMaterial::with_size(size);
    for (coords, id) in [([4, 4, 0], 3u8), ([5, 4, 0], 4), ([7, 7, 3], 5)] {
        DenseVoxelModel::set_voxel(&mut geometry, &mut material, coords, id);
    }
    let p = params(18, 0, 0);
    let control = params(1, 1, 1);
    let mut args = [0u32; 4];
    let block = mesh_main::mesh_main(4, &control, &vec![control, p], &mut args).unwrap();
    assert_eq!(block.origin, UVec3::new(4, 4, 0));
    let groups = |lod: u32| {
        mesh_main::mesh_groups(
            &p,
            geometry.occupancy(),
            material.material_refs(),
            material.material_pages_bytes(),
            &block,
            lod,
        )
    };
    let single = groups(1);
    assert_eq!(single.len(), 3);
    assert_eq!(single[2].min, UVec3::new(7, 7, 3));
    assert_eq!(single[2].materials, vec![5]);
    let halves = groups(2);
    assert_eq!(halves.len(), 2);
    assert_eq!(halves[0].materials, vec![3, 4]);
    let whole = groups(4);
    assert_eq!(whole.len(), 1);
    assert_eq!(whole[0].materials, vec![3, 4, 5]);
    assert_eq!(whole[0].size, 4);
}

#[test]
fn culled_voxels_are_not_shown() {
    let size = [10, 9, 6];
    let mut geometry = DenseVoxelGeometry::with_size(size);
    let mut material = DenseVoxelMaterial::with_size(size);
    DenseVoxelModel::set_voxel(&mut geometry, &mut material, [4, 4, 0], 3);
    let mut p = params(18, 0, 0);
    p.cull_min.x = 5;
    let emitted = mesh::emit_dense_group(
        &p,
        geometry.occupancy(),
        material.material_refs(),
        material.material_pages_bytes(),
        UVec3::new(10, 9, 6),
        UVec3::new(4, 4, 0),
        4,
    );
    assert_eq!(emitted, None);
}

#[test]
fn pyramid_levels() {
    let mips = pyramid::depth_pyramid_mips(UVec2 { x: 5, y: 3 });
    let mip = |offset, width, height| DepthPyramidMip { offset, width, height };
    assert_eq!(mips, vec![mip(0, 5, 3), mip(15, 2, 1), mip(17, 1, 1)]);
    assert_eq!(pyramid::mip_offset(5, 3, 2), 17);
    assert_eq!(pyramid::depth_pyramid_mips(UVec2 { x: 0, y: 0 }), vec![mip(0, 1, 1)]);
    assert_eq!(pyramid::occlusion_level(5, 3, 3, 9), Some(mip(17, 1, 1)));
    assert_eq!(pyramid::occlusion_level(5, 3, 0, 0), None);
    assert_eq!(
        pyramid::occlusion_taps(&mips[0], UVec2 { x: 1, y: 0 }, UVec2 { x: 9, y: 2 }),
        [1, 4, 11, 14]
    );
}

#[test]
fn texels_come_from_four() {
    let constants = DepthPyramidPushConstants {
        pyramid_handle: 0,
        src_offset: 0,
        dst_offset: 15,
        src_width: 5,
        src_height: 3,
        dst_width: 2,
        dst_height: 1,
        _pad: 0,
    };
    let texels = pyramid::depth_pyramid_texels(&constants, 1, 0).unwrap();
    assert_eq!(texels.dst, 16);
    assert!(pyramid::depth_pyramid_texels(&constants, 2, 0).is_none());
}

#[test]
fn cubes_have_faces() {
    for face in 0..6u32 {
        let normal = mesh_render::cube_normal(face * 6);
        for vertex in 0..6u32 {
            let id = face * 6 + vertex;
            assert_eq!(mesh_render::cube_normal(id), normal);
            let corner = mesh_render::cube_corner(id);
            let side = |n: i32, c: u32| n == 0 || (n > 0) == (c == 1);
            assert!(side(normal.x, corner.x) && side(normal.y, corner.y) && side(normal.z, corner.z));
        }
    }
}

fn rt_model() -> RtDenseModel {
    RtDenseModel {
        size: uvec4(10, 9, 6, 0),
        resource_handles: uvec4(0, 0, 0, 0),
        cull_min: uvec4(1, 0, 0, 0),
        cull_max: uvec4(10, 9, 6, 0),
    }
}

#[test]
fn rays_pass_voxels_that_are_not_shown() {
    let model = rt_model();
    assert!(mesh_render::voxel_in_rt_cull(&model, UVec3::new(1, 0, 0)));
    assert!(!mesh_render::voxel_in_rt_cull(&model, UVec3::new(0, 0, 0)));
    let hit = |x: u32| DenseVoxelHit {
        voxel: UVec3::new(x, 0, 0),
        material: 3,
        t: 0,
        normal: IVec3 { x: 0, y: 0, z: 0 },
    };
    assert_eq!(mesh_render::rt_outcome(&model, 0, &hit(1), false), RtOutcome::Hit);
    assert_eq!(mesh_render::rt_outcome(&model, 0, &hit(0), false), RtOutcome::Retry);
    assert_eq!(mesh_render::rt_outcome(&model, 7, &hit(0), false), RtOutcome::Miss);
    assert_eq!(mesh_render::rt_outcome(&model, 0, &DenseVoxelHit::miss(), false), RtOutcome::Miss);
}

#[test]
fn primitives_stand_for_models() {
    assert_eq!(mesh_render::rt_primitive_model(1, 2, 5, &[9, 4]), Some(4));
    assert_eq!(mesh_render::rt_primitive_model(0, 2, 5, &[9, 4]), None);
    assert_eq!(mesh_render::rt_primitive_model(2, 2, 5, &[9, 4]), None);
    assert_eq!(mesh_render::rt_primitive_model(0, 1, u32::MAX, &[u32::MAX]), None);
    let mut draw = params(36, 3, 0);
    draw.cull_min = uvec4(1, 1, 0, 0);
    assert!(mesh_render::rt_scene_exists(&draw));
    draw.resource_handles.w = 0;
    assert!(!mesh_render::rt_scene_exists(&draw));
    assert!(mesh_render::vertex_drawn(&draw, 35, 99));
    assert!(!mesh_render::vertex_drawn(&draw, 36, 0));
    assert!(!mesh_render::vertex_drawn(&draw, 0, 100));
}

#[test]
fn vertices_without_base() {
    assert_eq!(mesh_render::vertex_id_without_base(10, 4), 6);
    assert_eq!(mesh_render::instance_id_without_base(10, 4), 6);
}

#[test]
fn thresholds_differ() {
    let mut seen = Vec::new();
    for x in 0..4u32 {
        for y in 0..4u32 {
            seen.push(post::bayer4(UVec2 { x, y }));
        }
    }
    seen.sort();
    assert_eq!(seen, (0..16u32).collect::<Vec<u32>>());
    assert_eq!(post::bayer4(UVec2 { x: 5, y: 9 }), post::bayer4(UVec2 { x: 1, y: 1 }));
}

#[test]
fn one_triangle_covers_the_screen() {
    let corners: Vec<UVec2> = (0..3u32).map(|i| post::screen_triangle_corner(i, 0)).collect();
    assert_eq!(corners, vec![UVec2 { x: 0, y: 0 }, UVec2 { x: 2, y: 0 }, UVec2 { x: 0, y: 2 }]);
}
