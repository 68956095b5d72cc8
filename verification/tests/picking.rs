use std::collections::HashMap;

use dust::dense::geometry::DenseVoxelGeometry;
use dust::math::IVec3;
use dust::math::UVec3;
use dust::picking;
use dust::picking::PickWalk;

fn ivec(x: i32, y: i32, z: i32) -> IVec3 {
    IVec3 { x, y, z }
}

#[test]
fn colliders_are_the_occupied_voxels() {
    let mut geometry = DenseVoxelGeometry::with_size([6, 5, 9]);
    geometry.set_occupied([5, 4, 8]);
    geometry.set_occupied([0, 0, 0]);
    geometry.set_occupied([1, 3, 2]);
    geometry.set_occupied([4, 0, 0]);
    assert_eq!(
        picking::dense_collider_voxels(&geometry),
        vec![ivec(0, 0, 0), ivec(1, 3, 2), ivec(4, 0, 0), ivec(5, 4, 8)]
    );
}

#[test]
fn bits_past_the_size_are_no_voxels() {
    let mut geometry = DenseVoxelGeometry::with_size([1, 1, 1]);
    geometry.occupancy_mut()[0] = u64::MAX;
    assert_eq!(picking::dense_collider_voxels(&geometry), vec![ivec(0, 0, 0)]);
}

#[test]
fn bounds_are_cut_to_the_size() {
    let all = UVec3::new(u32::MAX, u32::MAX, u32::MAX);
    assert_eq!(
        picking::pick_bounds([4, 5, 6], UVec3::new(1, 1, 1), all),
        Some((UVec3::new(1, 1, 1), UVec3::new(4, 5, 6)))
    );
    assert_eq!(picking::pick_bounds([4, 5, 6], UVec3::new(4, 0, 0), all), None);
}

#[test]
fn steps_and_boundaries() {
    assert_eq!(picking::axis_step(true, false), 1);
    assert_eq!(picking::axis_step(false, true), -1);
    assert_eq!(picking::axis_step(false, false), 0);
    assert_eq!(picking::next_voxel_boundary(3, 1), Some(4));
    assert_eq!(picking::next_voxel_boundary(3, -1), Some(3));
    assert_eq!(picking::next_voxel_boundary(3, 0), None);
}

fn axis_t(boundary: Option<i32>, origin: f32, dir: f32) -> f32 {
    match boundary {
        Some(at) => (at as f32 - origin) / dir,
        None => f32::INFINITY,
    }
}

fn pick(geometry: &DenseVoxelGeometry, origin: [f32; 3], dir: [f32; 3]) -> Option<[u32; 3]> {
    let size = geometry.size();
    let max = ivec(size[0] as i32, size[1] as i32, size[2] as i32);
    let start = ivec(origin[0].floor() as i32, origin[1].floor() as i32, origin[2].floor() as i32);
    let step = ivec(
        picking::axis_step(dir[0] > 0.0, dir[0] < 0.0),
        picking::axis_step(dir[1] > 0.0, dir[1] < 0.0),
        picking::axis_step(dir[2] > 0.0, dir[2] < 0.0),
    );
    let mut walk = PickWalk::begin(ivec(0, 0, 0), max, start, step);
    let mut next = [
        axis_t(picking::next_voxel_boundary(walk.voxel.x, step.x), origin[0], dir[0]),
        axis_t(picking::next_voxel_boundary(walk.voxel.y, step.y), origin[1], dir[1]),
        axis_t(picking::next_voxel_boundary(walk.voxel.z, step.z), origin[2], dir[2]),
    ];
    while walk.is_within() {
        if let Some(coords) = walk.probe(geometry) {
            return Some(coords);
        }
        let nearest = next[0].min(next[1]).min(next[2]);
        let crossed = [next[0] == nearest, next[1] == nearest, next[2] == nearest];
        walk.cross(crossed);
        for axis in 0..3 {
            if crossed[axis] {
                next[axis] += 1.0 / dir[axis].abs();
            }
        }
    }
    None
}

#[test]
fn walks_find_the_first_voxel() {
    let mut geometry = DenseVoxelGeometry::with_size([8, 8, 8]);
    geometry.set_occupied([6, 2, 2]);
    geometry.set_occupied([7, 2, 2]);
    assert_eq!(pick(&geometry, [0.5, 2.5, 2.5], [1.0, 0.0, 0.0]), Some([6, 2, 2]));
    assert_eq!(pick(&geometry, [-3.0, 2.5, 2.5], [1.0, 0.0, 0.0]), Some([6, 2, 2]));
    assert_eq!(pick(&geometry, [0.5, 3.5, 2.5], [1.0, 0.0, 0.0]), None);
    assert_eq!(pick(&geometry, [6.5, 7.5, 2.5], [0.0, -1.0, 0.0]), Some([6, 2, 2]));
    assert_eq!(pick(&geometry, [2.5, 6.5, 2.5], [1.0, -1.0, 0.0]), Some([6, 2, 2]));
}

#[test]
fn walks_cross_edges_at_once() {
    let mut walk = PickWalk::begin(ivec(0, 0, 0), ivec(4, 4, 4), ivec(9, -9, 2), ivec(-1, 1, 0));
    assert_eq!(walk.voxel, ivec(3, 0, 2));
    walk.cross([true, true, false]);
    assert_eq!(walk.voxel, ivec(2, 1, 2));
    walk.cross([true, false, false]);
    walk.cross([true, false, false]);
    assert!(walk.is_within());
    walk.cross([true, false, false]);
    assert!(!walk.is_within());
}

#[test]
fn nearest_model_is_found() {
    let mut models: HashMap<u64, u64> = HashMap::new();
    models.insert(3, 30);
    models.insert(5, 50);
    let mut parents: HashMap<u64, u64> = HashMap::new();
    parents.insert(1, 2);
    parents.insert(2, 3);
    parents.insert(3, 5);
    parents.insert(8, 9);
    assert_eq!(picking::find_dense_model_entity(1, &models, &parents), Some(3));
    assert_eq!(picking::find_dense_model_entity(5, &models, &parents), Some(5));
    assert_eq!(picking::find_dense_model_entity(8, &models, &parents), None);
}
