use dust::math::UVec3;
use dust::vox::geometry::VoxGeometry;
use dust::vox::runtime;
use dust::vox::runtime::DeviceError;
use dust::vox::runtime::RuntimeVoxel;
use dust::vox::runtime::RuntimeVoxelModel;
use dust::vox::runtime::RuntimeVoxelModelId;
use dust::vox::runtime::RuntimeVoxelWorld;

fn voxel(x: u32, y: u32, z: u32, material: u8) -> RuntimeVoxel {
    RuntimeVoxel { coords: UVec3::new(x, y, z), material }
}

const TABLE: u64 = 77;

fn model_of(voxels: Vec<RuntimeVoxel>) -> RuntimeVoxelModel {
    match RuntimeVoxelModel::from_voxels(0.5f32.to_bits(), TABLE, voxels, Ok(())) {
        Ok(model) => model,
        Err(error) => panic!("{error:?}"),
    }
}

fn listed() -> Vec<RuntimeVoxel> {
    vec![voxel(1, 2, 3, 10), voxel(4, 0, 9, 11), voxel(2, 7, 5, 12)]
}

fn three() -> RuntimeVoxelModel {
    model_of(listed())
}

fn geometry() -> VoxGeometry {
    let mut geometry = VoxGeometry::new(0.5f32.to_bits());
    geometry.tree.replace(runtime::build_voxels(&listed()), |_, _| 0x1000);
    geometry
}

#[test]
fn models_are_made_of_voxels() {
    let model = three();
    assert!(!model.is_dirty());
    assert_eq!(model.revision(), 0);
    assert_eq!(model.voxels().len(), 3);
    assert_eq!(model.bounds(), Some(([1, 0, 3], [5, 8, 10])));
    assert_eq!(model.tree().get_value(UVec3::new(4, 0, 9)), Some(12));
    assert_eq!(model.tree().get_value(UVec3::new(4, 0, 8)), None);
}

#[test]
fn no_voxels_have_no_bounds() {
    let model = model_of(Vec::new());
    assert_eq!(model.bounds(), None);
    assert!(model.tree().iter().is_empty());
}

#[test]
fn known_voxels_change_their_material() {
    let mut model = three();
    model.set_voxel(UVec3::new(4, 0, 9), 20);
    assert!(model.is_dirty());
    assert_eq!(model.voxels()[1], voxel(4, 0, 9, 20));
    assert_eq!(model.voxels().len(), 3);
    assert_eq!(model.tree().get_value(UVec3::new(4, 0, 9)), Some(12));
    assert_eq!(model.rebuild_if_dirty(Ok(())), Ok(()));
    assert!(!model.is_dirty());
    assert_eq!(model.revision(), 1);
    assert_eq!(model.tree().get_value(UVec3::new(4, 0, 9)), Some(21));
}

#[test]
fn new_voxels_are_added() {
    let mut model = three();
    model.set_voxel(UVec3::new(0, 0, 200), 1);
    assert_eq!(model.voxels()[3], voxel(0, 0, 200, 1));
    assert_eq!(model.bounds(), Some(([0, 0, 3], [5, 8, 201])));
    model.set_voxel(UVec3::new(0, 0, 200), 2);
    assert_eq!(model.voxels().len(), 4);
    assert_eq!(model.voxels()[3].material, 2);
}

#[test]
fn last_voxel_takes_the_place_of_one_that_goes() {
    let mut model = three();
    assert_eq!(model.remove_voxel(UVec3::new(1, 2, 3)), Some(voxel(1, 2, 3, 10)));
    assert!(model.is_dirty());
    assert_eq!(model.voxels(), &vec![voxel(2, 7, 5, 12), voxel(4, 0, 9, 11)]);
    assert_eq!(model.bounds(), Some(([2, 0, 5], [5, 8, 10])));
    assert_eq!(model.remove_voxel(UVec3::new(2, 7, 5)), Some(voxel(2, 7, 5, 12)));
    assert_eq!(model.remove_voxel(UVec3::new(2, 7, 5)), None);
    assert_eq!(model.remove_voxel(UVec3::new(4, 0, 9)), Some(voxel(4, 0, 9, 11)));
    assert_eq!(model.bounds(), None);
    assert_eq!(model.rebuild_if_dirty(Ok(())), Ok(()));
    assert!(model.tree().iter().is_empty());
}

#[test]
fn missing_voxels_change_nothing() {
    let mut model = three();
    assert_eq!(model.remove_voxel(UVec3::new(9, 9, 9)), None);
    assert!(!model.is_dirty());
    assert_eq!(model.rebuild_if_dirty(Ok(())), Ok(()));
    assert_eq!(model.revision(), 0);
}

#[test]
fn last_of_two_voxels_at_a_place_counts() {
    let mut model = model_of(vec![voxel(1, 1, 1, 3), voxel(1, 1, 1, 4)]);
    assert_eq!(model.tree().get_value(UVec3::new(1, 1, 1)), Some(5));
    assert_eq!(model.remove_voxel(UVec3::new(1, 1, 1)), Some(voxel(1, 1, 1, 4)));
    assert_eq!(model.remove_voxel(UVec3::new(1, 1, 1)), None);
    assert_eq!(model.voxels(), &vec![voxel(1, 1, 1, 3)]);
}

#[test]
fn last_two_materials_share_a_value() {
    let voxels = vec![voxel(0, 0, 0, 254), voxel(0, 0, 1, 255)];
    let tree = runtime::build_voxels(&voxels);
    assert_eq!(tree.get_value(UVec3::new(0, 0, 0)), Some(255));
    assert_eq!(tree.get_value(UVec3::new(0, 0, 1)), Some(255));
}

#[test]
fn exported_voxels_are_those_of_the_tree() {
    let model = three();
    let mut exported = runtime::export_voxels(model.tree());
    exported.sort_by_key(|voxel| voxel.material);
    assert_eq!(&exported, model.voxels());
    let again = match RuntimeVoxelModel::from_assets(&geometry(), TABLE, Ok(())) {
        Ok(again) => again,
        Err(error) => panic!("{error:?}"),
    };
    assert_eq!(again.voxels().len(), 3);
    assert_eq!(again.unit_size(), 0.5f32.to_bits());
    assert_eq!(again.material_table(), TABLE);
    assert_eq!(again.bounds(), model.bounds());
}

#[test]
fn worlds_make_models_once() {
    let mut world = RuntimeVoxelWorld::default();
    let id = RuntimeVoxelModelId(7);
    assert!(world.model(id).is_none());
    assert!(world.model_mut(id).is_none());
    let lost = Err(DeviceError(-4));
    assert_eq!(world.ensure_model_from_assets(id, &geometry(), TABLE, lost).err(), Some(DeviceError(-4)));
    assert!(world.model(id).is_none());
    let made = world.ensure_model_from_assets(id, &geometry(), TABLE, Ok(()));
    made.unwrap().set_voxel(UVec3::new(0, 0, 0), 1);
    assert_eq!(world.model(id).unwrap().voxels().len(), 4);
    assert!(world.ensure_model_from_assets(id, &geometry(), TABLE, lost).is_ok());
    assert_eq!(world.model(id).unwrap().voxels().len(), 4);
    world.model_mut(id).unwrap().remove_voxel(UVec3::new(0, 0, 0));
    assert_eq!(world.model(id).unwrap().voxels().len(), 3);
}

#[test]
fn only_changed_models_are_flushed() {
    let mut world = RuntimeVoxelWorld::default();
    for id in 0..4u64 {
        let made = world.ensure_model_from_assets(RuntimeVoxelModelId(id), &geometry(), TABLE, Ok(()));
        assert!(made.is_ok());
    }
    world.model_mut(RuntimeVoxelModelId(1)).unwrap().set_voxel(UVec3::new(9, 9, 9), 9);
    world.model_mut(RuntimeVoxelModelId(3)).unwrap().set_voxel(UVec3::new(9, 9, 9), 9);
    assert_eq!(world.sync_runtime_voxel_world(&vec![3, 2, 1, 0]), vec![3, 1]);
    assert_eq!(world.model(RuntimeVoxelModelId(1)).unwrap().revision(), 1);
    assert_eq!(world.model(RuntimeVoxelModelId(2)).unwrap().revision(), 0);
    assert!(!world.model(RuntimeVoxelModelId(3)).unwrap().is_dirty());
    assert!(world.sync_runtime_voxel_world(&vec![3, 2, 1, 0]).is_empty());
}

#[test]
fn one_voxel_has_a_box_of_its_own() {
    let model = model_of(vec![voxel(1, 2, 3, 0)]);
    assert_eq!(model.bounds(), Some(([1, 2, 3], [2, 3, 4])));
}

#[test]
fn trees_that_the_device_does_not_take_change_nothing() {
    let refused = RuntimeVoxelModel::from_voxels(0, TABLE, listed(), Err(DeviceError(-2)));
    assert_eq!(refused.err(), Some(DeviceError(-2)));
    let mut model = three();
    model.set_voxel(UVec3::new(0, 0, 0), 9);
    assert_eq!(model.rebuild_if_dirty(Err(DeviceError(-1))), Err(DeviceError(-1)));
    assert!(model.is_dirty());
    assert_eq!(model.revision(), 0);
    assert_eq!(model.tree().get_value(UVec3::new(0, 0, 0)), None);
    assert_eq!(model.rebuild_if_dirty(Ok(())), Ok(()));
    assert_eq!(model.unit_size(), 0.5f32.to_bits());
    assert_eq!(model.material_table(), TABLE);
    assert_eq!(model.revision(), 1);
    assert_eq!(model.tree().get_value(UVec3::new(0, 0, 0)), Some(10));
    assert_eq!(model.rebuild_if_dirty(Err(DeviceError(-1))), Ok(()));
}
