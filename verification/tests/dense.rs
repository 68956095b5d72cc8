use dust::dense::geometry::DenseVoxelGeometry;
use dust::dense::layout;
use dust::dense::material;
use dust::dense::material::DenseMaterialParam;
use dust::dense::material::DenseVoxelMaterial;
use dust::dense::model::DenseVoxelModel;
use dust::math::UVec3;

const SIZE: [u32; 3] = [9, 5, 6];

fn pair() -> (DenseVoxelGeometry, DenseVoxelMaterial) {
    (DenseVoxelGeometry::with_size(SIZE), DenseVoxelMaterial::with_size(SIZE))
}

#[test]
fn layout_of_blocks() {
    assert_eq!(layout::block_extent(SIZE), [3, 2, 2]);
    assert_eq!(layout::block_count(SIZE), 12);
    assert_eq!(layout::occupancy_bytes(SIZE), 96);
    assert_eq!(layout::material_refs_bytes(SIZE), 48);
    assert_eq!(layout::material_pages_bytes(3), 192);
    assert_eq!(layout::block_index([2, 1, 1], SIZE), 2 + 3 * (1 + 2));
    assert_eq!(layout::local_index([1, 2, 3]), 1 + 8 + 48);
    let index = layout::voxel_index([8, 4, 5], SIZE);
    assert_eq!(index.block_index, 11);
    assert_eq!(index.local_index, 16);
}

#[test]
fn references_are_told_apart() {
    let page = layout::page_material_ref(5);
    assert_eq!(page, 0x8000_0005);
    assert!(layout::is_page_material_ref(page));
    assert!(!layout::is_uniform_material_ref(page));
    assert_eq!(layout::material_page_index(page), 5);
    assert!(layout::is_uniform_material_ref(200));
    assert!(!layout::is_page_material_ref(200));
    assert_eq!(layout::uniform_material(200), 200);
    assert!(!layout::is_page_material_ref(layout::EMPTY_MATERIAL_REF));
    assert!(!layout::is_uniform_material_ref(layout::EMPTY_MATERIAL_REF));
}

#[test]
fn powers_of_two() {
    assert_eq!(layout::next_power_of_two(0), 1);
    assert_eq!(layout::next_power_of_two(1), 1);
    assert_eq!(layout::next_power_of_two(17), 32);
    assert_eq!(layout::next_power_of_two(64), 64);
}

#[test]
fn occupied_voxels_are_found_again() {
    let mut geometry = DenseVoxelGeometry::with_size(SIZE);
    assert_eq!(geometry.size(), SIZE);
    assert!(!geometry.is_occupied([8, 4, 5]));
    geometry.set_occupied([8, 4, 5]);
    geometry.set_occupied([0, 0, 0]);
    assert!(geometry.is_occupied([8, 4, 5]));
    assert!(!geometry.is_occupied([7, 4, 5]));
    assert_eq!(geometry.block_occupancy(11), 1 << 16);
    assert_eq!(geometry.occupancy()[0], 1);
    geometry.clear_voxel([8, 4, 5]);
    assert!(!geometry.is_occupied([8, 4, 5]));
    assert!(geometry.is_occupied([0, 0, 0]));
    geometry.occupancy_mut()[1] = u64::MAX;
    assert!(geometry.is_occupied([5, 2, 3]));
}

#[test]
fn whole_models_have_all_blocks() {
    let geometry = DenseVoxelGeometry::new();
    assert_eq!(geometry.size(), [256, 256, 256]);
    assert_eq!(geometry.occupancy().len(), 64 * 64 * 64);
    let material = DenseVoxelMaterial::new();
    assert_eq!(material.size(), [256, 256, 256]);
    assert_eq!(material.material_refs().len(), 64 * 64 * 64);
}

#[test]
fn first_handle_stays() {
    let mut geometry = DenseVoxelGeometry::with_size(SIZE);
    assert_eq!(geometry.occupancy_bindless_handle(), None);
    geometry.register_bindless(4);
    geometry.register_bindless(9);
    assert_eq!(geometry.occupancy_bindless_handle(), Some(4));
}

#[test]
fn one_material_needs_no_page() {
    let (mut geometry, mut material) = pair();
    DenseVoxelModel::set_voxel(&mut geometry, &mut material, [1, 1, 1], 7);
    DenseVoxelModel::set_voxel(&mut geometry, &mut material, [2, 1, 1], 7);
    assert_eq!(material.material_refs()[0], 7);
    assert_eq!(material.material_page_count(), 0);
    assert_eq!(material.material(&geometry, [1, 1, 1]), Some(7));
    assert_eq!(material.material(&geometry, [3, 1, 1]), None);
    material.material_refs_mut()[0] = 9;
    assert_eq!(material.material(&geometry, [1, 1, 1]), Some(9));
}

#[test]
fn two_materials_share_a_page() {
    let (mut geometry, mut material) = pair();
    DenseVoxelModel::set_voxel(&mut geometry, &mut material, [1, 1, 1], 7);
    DenseVoxelModel::set_voxel(&mut geometry, &mut material, [2, 1, 1], 8);
    assert_eq!(material.material_page_count(), 1);
    assert_eq!(material.material_refs()[0], 0x8000_0000);
    assert_eq!(material.material(&geometry, [1, 1, 1]), Some(7));
    assert_eq!(material.material(&geometry, [2, 1, 1]), Some(8));
    assert_eq!(material.material_pages().len(), 1);
    assert_eq!(material.material_pages()[0][21], 7);
    assert_eq!(material.material_pages()[0][22], 8);
    assert_eq!(material.material_pages_bytes()[22], 8);
}

#[test]
fn voxels_on_a_page_are_overwritten() {
    let (mut geometry, mut material) = pair();
    DenseVoxelModel::set_voxel(&mut geometry, &mut material, [1, 1, 1], 7);
    DenseVoxelModel::set_voxel(&mut geometry, &mut material, [2, 1, 1], 8);
    DenseVoxelModel::set_voxel(&mut geometry, &mut material, [1, 1, 1], 9);
    assert_eq!(material.material(&geometry, [1, 1, 1]), Some(9));
    assert_eq!(material.material(&geometry, [2, 1, 1]), Some(8));
    assert_eq!(material.material_page_count(), 1);
}

#[test]
fn clearing_the_last_voxel_drops_the_reference() {
    let (mut geometry, mut material) = pair();
    DenseVoxelModel::set_voxel(&mut geometry, &mut material, [1, 1, 1], 7);
    DenseVoxelModel::set_voxel(&mut geometry, &mut material, [2, 1, 1], 7);
    DenseVoxelModel::clear_voxel(&mut geometry, &mut material, [1, 1, 1]);
    assert_eq!(material.material(&geometry, [1, 1, 1]), None);
    assert_eq!(material.material(&geometry, [2, 1, 1]), Some(7));
    assert_eq!(material.material_refs()[0], 7);
    DenseVoxelModel::clear_voxel(&mut geometry, &mut material, [2, 1, 1]);
    assert_eq!(material.material_refs()[0], layout::EMPTY_MATERIAL_REF);
}

#[test]
fn pages_grow_and_keep_what_they_hold() {
    let size = [80, 4, 4];
    let mut geometry = DenseVoxelGeometry::with_size(size);
    let mut material = DenseVoxelMaterial::with_size(size);
    material.register_bindless(Some(1), Some(2), Some(3));
    assert!(!material.material_pages_moved());
    for block in 0..20u32 {
        DenseVoxelModel::set_voxel(&mut geometry, &mut material, [block * 4, 0, 0], 1);
        DenseVoxelModel::set_voxel(&mut geometry, &mut material, [block * 4 + 1, 0, 0], block as u8 + 2);
    }
    assert_eq!(material.material_page_count(), 20);
    assert!(material.material_pages_moved());
    for block in 0..20u32 {
        assert_eq!(material.material(&geometry, [block * 4, 0, 0]), Some(1));
        assert_eq!(material.material(&geometry, [block * 4 + 1, 0, 0]), Some(block as u8 + 2));
    }
    material.rebind_material_pages(11);
    assert!(!material.material_pages_moved());
    assert_eq!(material.material_pages_bindless_handle(), Some(11));
}

#[test]
fn rebuilding_frees_pages_that_are_not_needed() {
    let (mut geometry, mut material) = pair();
    DenseVoxelModel::set_voxel(&mut geometry, &mut material, [1, 1, 1], 7);
    DenseVoxelModel::set_voxel(&mut geometry, &mut material, [2, 1, 1], 8);
    DenseVoxelModel::set_voxel(&mut geometry, &mut material, [5, 1, 1], 3);
    DenseVoxelModel::set_voxel(&mut geometry, &mut material, [6, 1, 1], 4);
    DenseVoxelModel::clear_voxel(&mut geometry, &mut material, [2, 1, 1]);
    assert_eq!(material.material_page_count(), 2);
    material.rebuild_material_pages(&geometry);
    assert_eq!(material.material_page_count(), 1);
    assert_eq!(material.material_refs()[0], 7);
    assert_eq!(material.material(&geometry, [1, 1, 1]), Some(7));
    assert_eq!(material.material(&geometry, [2, 1, 1]), None);
    assert_eq!(material.material(&geometry, [5, 1, 1]), Some(3));
    assert_eq!(material.material(&geometry, [6, 1, 1]), Some(4));
}

#[test]
fn uniform_pages_are_seen() {
    let mut page = [0u8; 64];
    page[3] = 5;
    page[9] = 5;
    assert_eq!(material::uniform_material_for_occupied_voxels((1 << 3) | (1 << 9), &page), Some(5));
    assert_eq!(material::uniform_material_for_occupied_voxels((1 << 3) | (1 << 4), &page), None);
    assert_eq!(material::uniform_material_for_occupied_voxels(0, &page), None);
}

#[test]
fn parameters_are_numbers() {
    let (_, mut material) = pair();
    let white = DenseMaterialParam::default();
    assert_eq!(f32::from_bits(white.base_color[3]), 1.0);
    assert_eq!(f32::from_bits(white.pbr[0]), 0.0);
    assert_eq!(f32::from_bits(white.pbr[1]), 0.6);
    assert_eq!(f32::from_bits(white.pbr[2]), 0.5);
    assert_eq!(material.material_params().len(), 256);
    assert_eq!(material.material_params()[255], white);
    let mut entries = [white; 256];
    entries[3].pbr[0] = 1.0f32.to_bits();
    material.set_material_params(&entries);
    assert_eq!(material.material_params()[3].pbr[0], 0x3f80_0000);
}

#[test]
fn descriptors_need_every_handle() {
    let (mut geometry, mut material) = pair();
    assert_eq!(DenseVoxelModel::gpu_descriptor(&geometry, &material), None);
    geometry.register_bindless(1);
    material.register_bindless(Some(2), Some(3), None);
    assert_eq!(DenseVoxelModel::gpu_descriptor(&geometry, &material), None);
    material.register_bindless(Some(20), Some(30), Some(4));
    let gpu = DenseVoxelModel::gpu_descriptor(&geometry, &material).unwrap();
    assert_eq!(gpu.size, [9, 5, 6, 0]);
    assert_eq!(gpu.occupancy_handle, 1);
    assert_eq!(gpu.material_refs_handle, 2);
    assert_eq!(gpu.material_pages_handle, 3);
    assert_eq!(gpu.material_params_handle, 4);
}

#[test]
fn models_are_shown_whole() {
    let model = DenseVoxelModel::new(1, 2, SIZE);
    assert_eq!(model.cull_min, UVec3::new(0, 0, 0));
    assert_eq!(model.cull_max, UVec3::new(9, 5, 6));
    assert_eq!((model.occupancy, model.material), (1, 2));
}
