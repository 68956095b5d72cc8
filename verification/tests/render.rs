use std::collections::HashMap;

use dust::dense::geometry::DenseVoxelGeometry;
use dust::dense::material::DenseVoxelMaterial;
use dust::dense::model::DenseVoxelModel;
use dust::math::UVec2;
use dust::math::UVec3;
use dust::math::UVec4;
use dust::render::bounds;
use dust::render::bounds::BoundsCache;
use dust::render::frame;
use dust::render::frame::FrameInputs;
use dust::render::frame::FramePlan;
use dust::render::resources;
use dust::render::resources::DepthHistory;
use dust::render::resources::FrameNeeds;
use dust::render::resources::ResourceAction;
use dust::render::resources::UploadAction;
use dust::render::scene;
use dust::shaders::mesh_main;
use dust::shaders::pyramid;

const SIZE: [u32; 3] = [10, 9, 6];

fn pair() -> (DenseVoxelGeometry, DenseVoxelMaterial) {
    let mut geometry = DenseVoxelGeometry::with_size(SIZE);
    let mut material = DenseVoxelMaterial::with_size(SIZE);
    DenseVoxelModel::set_voxel(&mut geometry, &mut material, [2, 3, 1], 4);
    DenseVoxelModel::set_voxel(&mut geometry, &mut material, [7, 5, 5], 4);
    geometry.register_bindless(11);
    material.register_bindless(Some(12), Some(13), Some(14));
    (geometry, material)
}

#[test]
fn bounds_hold_the_voxels_that_are_shown() {
    let (geometry, _) = pair();
    let all = UVec3::new(u32::MAX, u32::MAX, u32::MAX);
    let zero = UVec3::new(0, 0, 0);
    assert_eq!(
        bounds::geometry_bounds(&geometry, zero, all),
        Some((UVec3::new(2, 3, 1), UVec3::new(8, 6, 6)))
    );
    assert_eq!(
        bounds::geometry_bounds(&geometry, zero, UVec3::new(7, 9, 6)),
        Some((UVec3::new(2, 3, 1), UVec3::new(3, 4, 2)))
    );
    assert_eq!(bounds::geometry_bounds(&geometry, UVec3::new(8, 0, 0), all), None);
    assert_eq!(bounds::geometry_bounds(&geometry, UVec3::new(99, 0, 0), all), None);
    assert_eq!(bounds::dense_block_count(SIZE), 18);
    assert_eq!(bounds::dense_block_extent(UVec3::new(10, 9, 6)), UVec3::new(3, 3, 2));
}

#[test]
fn bounds_are_worked_out_once() {
    let (mut geometry, _) = pair();
    let mut cache = BoundsCache::new();
    let (min, max) = (UVec3::new(0, 0, 0), UVec3::new(10, 9, 6));
    let first = cache.dense_geometry_bounds(5, &geometry, min, max);
    assert_eq!(first, Some((UVec3::new(2, 3, 1), UVec3::new(8, 6, 6))));
    geometry.set_occupied([9, 8, 5]);
    assert_eq!(cache.dense_geometry_bounds(5, &geometry, min, max), first);
    assert_eq!(
        cache.dense_geometry_bounds(6, &geometry, min, max),
        Some((UVec3::new(2, 3, 1), UVec3::new(10, 9, 6)))
    );
}

fn inputs(previous_depth_valid: bool) -> FrameInputs {
    FrameInputs {
        previous_depth_valid,
        previous_depth_pyramid_handle: 21,
        depth_pyramid_handle: 22,
        extent: UVec2 { x: 640, y: 480 },
        mip_count: 10,
        rt_nodes_handle: 23,
        rt_primitive_to_model_handle: 24,
        rt_models_handle: 25,
        rt_node_count: 26,
        rt_primitive_count: 27,
    }
}

fn plan_of_two() -> FramePlan {
    let (geometry, material) = pair();
    let mut model = DenseVoxelModel::new(1, 2, SIZE);
    let mut plan = FramePlan::new();
    let (gpu, index) = plan.add_model(&geometry, &material, &model, true).unwrap();
    assert_eq!(index, Some(0));
    assert!(plan.add_instance(&gpu, &model));
    model.cull_max = UVec3::new(5, 5, 5);
    assert_eq!(plan.add_model(&geometry, &material, &model, true).unwrap().1, Some(1));
    assert!(plan.add_instance(&gpu, &model));
    plan
}

#[test]
fn instances_follow_each_other() {
    let plan = plan_of_two();
    assert_eq!(plan.total_blocks, 36);
    assert_eq!(plan.block_groups(), Some(1));
    assert_eq!(plan.instances[0].mesh_params, UVec4 { x: 18, y: 2097152, z: 0, w: 0 });
    assert_eq!(plan.instances[1].mesh_params.w, 18);
    assert_eq!(plan.instances[1].cull_max, UVec4 { x: 5, y: 5, z: 5, w: 0 });
    assert_eq!(plan.instances[0].cull_min.w, 14);
    assert_eq!(plan.instances[0].resource_handles.x, 11);
    assert_eq!(plan.rt_models[0].size, UVec4 { x: 10, y: 9, z: 6, w: 0 });
    assert_eq!(plan.rt_models[0].resource_handles, UVec4 { x: 11, y: 12, z: 13, w: 0 });
    assert_eq!(FramePlan::new().block_groups(), None);
}

#[test]
fn frames_lay_out_their_parameters() {
    let plan = plan_of_two();
    let frame = plan.dispatches(&inputs(false));
    assert_eq!(frame.params.len(), 10);
    assert_eq!(frame.params[0].mesh_params.z, 0);
    assert_eq!(frame.params[1].mesh_params, UVec4 { x: 2, y: 2097152, z: 1, w: 2 });
    assert_eq!(frame.params[2], plan.instances[0]);
    assert_eq!(frame.finalize_prepass_index, 4);
    assert_eq!(frame.params[4].mesh_params.z, 2);
    assert_eq!(frame.params[5].mesh_params, UVec4 { x: 36, y: 2097152, z: 3, w: 0 });
    assert_eq!(frame.emit_final_index, 7);
    assert_eq!(frame.params[7].mesh_params.z, 4);
    assert_eq!(frame.params[7].resource_handles, UVec4 { x: 22, y: 640, z: 480, w: 10 });
    assert_eq!(frame.draw_final_index, 9);
    assert_eq!(frame.params[9].resource_handles, UVec4 { x: 23, y: 24, z: 25, w: 26 });
    assert_eq!(frame.params[9].cull_min, UVec4 { x: 27, y: 2, z: 0, w: 0 });
    let again = plan.dispatches(&inputs(true));
    assert_eq!(again.params[1].mesh_params.z, 5);
    assert_eq!(again.params[1].resource_handles.x, 21);
}

#[test]
fn threads_find_the_blocks_of_a_frame() {
    let plan = plan_of_two();
    let frame = plan.dispatches(&inputs(false));
    let control = frame.params[frame.emit_prepass_index as usize];
    let mut args = [0u32; 4];
    for thread in 0..36u32 {
        let block = mesh_main::mesh_main(thread, &control, &frame.params, &mut args).unwrap();
        assert_eq!(block.params_index, 2 + thread / 18);
        assert_eq!(block.storage_index, thread % 18);
    }
    assert_eq!(mesh_main::mesh_main(36, &control, &frame.params, &mut args), None);
}

#[test]
fn models_need_everything() {
    let (geometry, material) = pair();
    let model = DenseVoxelModel::new(1, 2, SIZE);
    let mut plan = FramePlan::new();
    assert!(plan.add_model(&geometry, &material, &model, false).is_none());
    let other = DenseVoxelMaterial::with_size([10, 9, 7]);
    assert!(!frame::same_size(&geometry, &other));
    assert!(plan.add_model(&geometry, &other, &model, true).is_none());
    let bare = DenseVoxelMaterial::with_size(SIZE);
    assert!(plan.add_model(&geometry, &bare, &model, true).is_none());
    assert!(plan.rt_models.is_empty());
}

#[test]
fn frames_have_room_for_some() {
    let (geometry, material) = pair();
    let model = DenseVoxelModel::new(1, 2, SIZE);
    let mut plan = FramePlan::new();
    let (gpu, _) = plan.add_model(&geometry, &material, &model, true).unwrap();
    let mut added = 0;
    while plan.add_instance(&gpu, &model) {
        added += 1;
    }
    assert_eq!(added, 4088);
    assert_eq!(plan.dispatches(&inputs(false)).params.len(), 4096);
}

#[test]
fn resources_follow_the_extent() {
    let extent = UVec2 { x: 5, y: 3 };
    assert_eq!(resources::ensure_mesh_resources(None, extent), ResourceAction::Create);
    assert_eq!(resources::ensure_mesh_resources(Some(extent), extent), ResourceAction::Keep);
    let other = UVec2 { x: 5, y: 4 };
    assert_eq!(resources::ensure_mesh_resources(Some(other), extent), ResourceAction::Resize);
    let sizes = resources::buffer_sizes(&pyramid::depth_pyramid_mips(extent));
    assert_eq!(sizes.clusters, 2097152 * 48);
    assert_eq!(sizes.indirect, 16);
    assert_eq!(sizes.depth_pyramid, 18 * 4);
}

#[test]
fn levels_are_filled_in_turn() {
    let mips = pyramid::depth_pyramid_mips(UVec2 { x: 50, y: 30 });
    let dispatches = resources::mip_dispatches(9, &mips);
    assert_eq!(dispatches.len(), mips.len() - 1);
    assert_eq!(dispatches[0].groups, UVec2 { x: 4, y: 2 });
    assert_eq!(dispatches[0].constants.src_width, 50);
    assert_eq!(dispatches[0].constants.dst_width, 25);
    assert_eq!(dispatches[0].constants.dst_offset, 1500);
    assert_eq!(dispatches[0].constants.pyramid_handle, 9);
}

#[test]
fn uploads_depend_on_their_length() {
    assert_eq!(resources::upload_params_buffer(65536), UploadAction::Inline);
    assert_eq!(resources::upload_params_buffer(65537), UploadAction::Staged);
    assert_eq!(resources::upload_or_clear_buffer(0, 80), UploadAction::Clear(80));
    assert_eq!(resources::upload_or_clear_buffer(1, 80), UploadAction::Inline);
}

#[test]
fn depths_are_kept_for_a_camera() {
    let mut history = DepthHistory::none();
    assert!(!history.usable(true));
    history.record([[1; 4]; 3]);
    assert!(history.usable(true));
    assert!(!history.usable(false));
    let extent = UVec2 { x: 5, y: 3 };
    let mut needs = FrameNeeds {
        image_extent: Some(extent),
        camera: true,
        pipelines: true,
        pixel_art: false,
        post_pipeline: false,
    };
    assert!(resources::begin_frame(&needs, extent, &mut history));
    assert!(history.valid);
    needs.pixel_art = true;
    assert!(!resources::begin_frame(&needs, extent, &mut history));
    needs.image_extent = None;
    assert!(!resources::begin_frame(&needs, extent, &mut history));
    assert!(history.valid);
    needs.image_extent = Some(UVec2 { x: 6, y: 3 });
    assert!(!resources::begin_frame(&needs, extent, &mut history));
    assert!(!history.valid);
    assert_eq!(history.camera_axes, None);
}

#[test]
fn colliders_lead_to_models() {
    let mut models: HashMap<u64, u32> = HashMap::new();
    models.insert(3, 0);
    models.insert(40, 1);
    let mut parents: HashMap<u64, u64> = HashMap::new();
    parents.insert(1, 2);
    parents.insert(2, 3);
    for entity in 10..40u64 {
        parents.insert(entity, entity + 1);
    }
    assert_eq!(scene::resolve_rt_model(1, &models, &parents), Some(0));
    assert_eq!(scene::resolve_rt_model(25, &models, &parents), Some(1));
    assert_eq!(scene::resolve_rt_model(24, &models, &parents), None);
    assert_eq!(scene::resolve_rt_model(7, &models, &parents), None);
    assert_eq!(
        scene::build_rt_scene(
            1,
            &[1, 0, 2, 9, 3],
            &[Some(1), Some(25), Some(7), None],
            &models,
            &parents
        ),
        Some(vec![1, 0, u32::MAX, u32::MAX, u32::MAX])
    );
    assert_eq!(scene::build_rt_scene(1, &[], &[], &models, &parents), None);
    assert_eq!(scene::build_rt_scene(65537, &[1], &[Some(1)], &models, &parents), None);
}
