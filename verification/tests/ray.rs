use dust::dense::geometry::DenseVoxelGeometry;
use dust::dense::material::DenseVoxelMaterial;
use dust::dense::model::DenseVoxelModel;
use dust::math::IVec3;
use dust::math::UVec3;
use dust::math::UVec4;
use dust::shaders::dense;
use dust::shaders::dense::DenseVoxelGpu;
use dust::shaders::dense::DenseVoxelHit;
use dust::shaders::ray::DenseRay;
use dust::shaders::ray::RayAsk;
use dust::shaders::walk;
use dust::shaders::walk::Axis;
use dust::shaders::walk::BlockWalk;
use dust::shaders::walk::VoxelWalk;

const SIZE: [u32; 3] = [10, 9, 6];

fn gpu() -> DenseVoxelGpu {
    DenseVoxelGpu {
        size: UVec4 { x: SIZE[0], y: SIZE[1], z: SIZE[2], w: 0 },
        occupancy_handle: 0,
        material_refs_handle: 0,
        material_pages_handle: 0,
        _pad: 0,
    }
}

fn model() -> (DenseVoxelGeometry, DenseVoxelMaterial) {
    let mut geometry = DenseVoxelGeometry::with_size(SIZE);
    let mut material = DenseVoxelMaterial::with_size(SIZE);
    let voxels = [([7, 5, 2], 40u8), ([1, 1, 1], 41), ([2, 1, 1], 42), ([9, 8, 5], 43), ([0, 8, 0], 44)];
    for (coords, id) in voxels {
        DenseVoxelModel::set_voxel(&mut geometry, &mut material, coords, id);
    }
    (geometry, material)
}

fn ivec(x: i32, y: i32, z: i32) -> IVec3 {
    IVec3 { x, y, z }
}

#[test]
fn shaders_read_what_was_set() {
    let (geometry, material) = model();
    for x in 0..SIZE[0] {
        for y in 0..SIZE[1] {
            for z in 0..SIZE[2] {
                let read = dense::voxel_material(
                    gpu(),
                    geometry.occupancy(),
                    material.material_refs(),
                    material.material_pages_bytes(),
                    UVec3::new(x, y, z),
                );
                match material.material(&geometry, [x, y, z]) {
                    Some(id) => assert_eq!(read, id as u32),
                    None => assert_eq!(read, dense::INVALID_MATERIAL),
                }
            }
        }
    }
    let outside = UVec3::new(10, 0, 0);
    assert!(!dense::voxel_in_bounds(gpu(), outside));
    assert_eq!(
        dense::voxel_material(
            gpu(),
            geometry.occupancy(),
            material.material_refs(),
            material.material_pages_bytes(),
            outside
        ),
        dense::INVALID_MATERIAL
    );
}

#[test]
fn places_in_blocks() {
    assert_eq!(dense::block_extent(gpu()), UVec3::new(3, 3, 2));
    assert_eq!(dense::voxel_block(UVec3::new(9, 5, 2)), UVec3::new(2, 1, 0));
    assert_eq!(dense::voxel_local(UVec3::new(9, 5, 2)), UVec3::new(1, 1, 2));
    assert_eq!(dense::block_index(UVec3::new(2, 1, 1), UVec3::new(3, 3, 2)), 2 + 3 * (1 + 3));
    assert_eq!(dense::local_index(UVec3::new(1, 1, 2)), 37);
    assert!(dense::occupancy_bit(1 << 37, UVec3::new(1, 1, 2)));
    assert!(!dense::occupancy_bit(1 << 36, UVec3::new(1, 1, 2)));
    assert!(dense::is_page_material_ref(0x8000_0001));
    assert!(dense::is_uniform_material_ref(3));
    assert_eq!(dense::material_page_index(0x8000_0001), 1);
    assert!(!DenseVoxelHit::miss().is_hit());
    assert_eq!(f32::from_bits(DenseVoxelHit::miss().t), f32::INFINITY);
}

#[test]
fn axes_in_order() {
    assert_eq!(walk::next_axis(true, true, false), Axis::X);
    assert_eq!(walk::next_axis(true, false, true), Axis::Y);
    assert_eq!(walk::next_axis(false, true, false), Axis::Z);
    assert_eq!(walk::step_vec([false, true, false]), ivec(1, -1, 1));
    let mut at = 3u32;
    assert!(walk::step_axis(&mut at, 1, 5));
    assert!(!walk::step_axis(&mut at, 1, 5));
    at = 0;
    assert!(!walk::step_axis(&mut at, -1, 5));
    assert_eq!(at, 0);
    at = 4;
    assert!(!walk::step_axis_range(&mut at, -1, 4, 8));
    at = 5;
    assert!(walk::step_axis_range(&mut at, -1, 4, 8));
    assert_eq!(at, 4);
    assert_eq!(walk::position_to_voxel(gpu(), UVec3::new(99, 3, 6)), UVec3::new(9, 3, 5));
}

#[test]
fn walks_leave_blocks_and_models() {
    let mut blocks = BlockWalk::begin(gpu(), UVec3::new(5, 0, 0), ivec(1, 1, -1));
    assert_eq!(blocks.block, UVec3::new(1, 0, 0));
    assert_eq!(blocks.boundary(), UVec3::new(8, 4, 0));
    assert!(blocks.advance(Axis::X));
    assert_eq!(blocks.normal, ivec(-1, 0, 0));
    assert!(!blocks.advance(Axis::X));
    let blocks = BlockWalk::begin(gpu(), UVec3::new(9, 8, 5), ivec(-1, 1, -1));
    let mut voxels = VoxelWalk::begin(gpu(), &blocks, UVec3::new(9, 8, 5));
    assert_eq!(voxels.voxel, UVec3::new(9, 8, 5));
    assert_eq!(voxels.block_max, UVec3::new(10, 9, 6));
    assert_eq!(voxels.boundary(), UVec3::new(9, 9, 5));
    assert!(voxels.advance(Axis::X));
    assert_eq!(voxels.normal, ivec(1, 0, 0));
    assert!(!voxels.advance(Axis::X));
}

fn t_to(boundary: u32, origin: f32, dir: f32) -> f32 {
    if dir == 0.0 {
        f32::INFINITY
    } else {
        (boundary as f32 - origin) / dir
    }
}

fn crossing(boundary: UVec3, origin: [f32; 3], dir: [f32; 3]) -> (Axis, f32) {
    let t = [
        t_to(boundary.x, origin[0], dir[0]),
        t_to(boundary.y, origin[1], dir[1]),
        t_to(boundary.z, origin[2], dir[2]),
    ];
    let axis = walk::next_axis(t[0] <= t[1], t[0] <= t[2], t[1] <= t[2]);
    match axis {
        Axis::X => (axis, t[0]),
        Axis::Y => (axis, t[1]),
        Axis::Z => (axis, t[2]),
    }
}

fn at(origin: [f32; 3], dir: [f32; 3], t: f32) -> UVec3 {
    let p = |i: usize| (origin[i] + dir[i] * t).floor().max(0.0) as u32;
    UVec3::new(p(0), p(1), p(2))
}

fn sign(x: f32) -> i32 {
    if x < 0.0 {
        -1
    } else {
        1
    }
}

fn trace(
    geometry: &DenseVoxelGeometry,
    material: &DenseVoxelMaterial,
    origin: [f32; 3],
    dir: [f32; 3],
) -> DenseVoxelHit {
    let (occupancy, refs, pages) =
        (geometry.occupancy(), material.material_refs(), material.material_pages_bytes());
    trace_words(gpu(), occupancy, refs, pages, origin, dir, 0.0)
}

fn trace_words(
    gpu: DenseVoxelGpu,
    occupancy: &[u64],
    refs: &[u32],
    pages: &[u8],
    origin: [f32; 3],
    dir: [f32; 3],
    enter_t: f32,
) -> DenseVoxelHit {
    let step = ivec(sign(dir[0]), sign(dir[1]), sign(dir[2]));
    let mut t = enter_t;
    let (mut ray, mut ask) = DenseRay::begin(gpu, occupancy, refs, at(origin, dir, t), step);
    loop {
        let block_crossing = crossing(ray.blocks.boundary(), origin, dir);
        ask = match ask {
            RayAsk::Done(hit) => return hit,
            RayAsk::Entry => {
                ray.enter(gpu, occupancy, refs, pages, at(origin, dir, t), t.to_bits())
            }
            RayAsk::VoxelCrossing => {
                let (axis, voxel_t) = crossing(ray.voxels.unwrap().boundary(), origin, dir);
                let next = if voxel_t > block_crossing.1 { None } else { Some(axis) };
                ray.cross_voxel(gpu, occupancy, refs, pages, next, voxel_t.to_bits())
            }
            RayAsk::BlockCrossing => {
                t = block_crossing.1;
                ray.cross_block(gpu, occupancy, refs, Some(block_crossing.0))
            }
        };
    }
}

#[test]
fn rays_come_from_outside() {
    let one = DenseVoxelGpu {
        size: UVec4 { x: 4, y: 4, z: 4, w: 0 },
        occupancy_handle: 0,
        material_refs_handle: 0,
        material_pages_handle: 0,
        _pad: 0,
    };
    let hit = trace_words(one, &[0b100], &[7], &[], [-1.0, 0.5, 0.5], [1.0, 0.0, 0.0], 1.0);
    assert_eq!((hit.voxel, hit.material), (UVec3::new(2, 0, 0), 7));
    assert_eq!(f32::from_bits(hit.t), 3.0);
    assert_eq!(hit.normal, ivec(-1, 0, 0));
}

#[test]
fn rays_hit_the_first_voxel() {
    let (geometry, material) = model();
    let hit = trace(&geometry, &material, [0.5, 1.5, 1.5], [1.0, 0.0, 0.0]);
    assert_eq!((hit.voxel, hit.material), (UVec3::new(1, 1, 1), 41));
    assert_eq!(f32::from_bits(hit.t), 0.5);
    assert_eq!(hit.normal, ivec(-1, 0, 0));

    let hit = trace(&geometry, &material, [9.5, 1.5, 1.5], [-1.0, 0.0, 0.0]);
    assert_eq!((hit.voxel, hit.material), (UVec3::new(2, 1, 1), 42));
    assert_eq!(f32::from_bits(hit.t), 6.5);
    assert_eq!(hit.normal, ivec(1, 0, 0));

    let hit = trace(&geometry, &material, [7.5, 0.5, 2.5], [0.0, 1.0, 0.0]);
    assert_eq!((hit.voxel, hit.material), (UVec3::new(7, 5, 2), 40));
    assert_eq!(hit.normal, ivec(0, -1, 0));

    let hit = trace(&geometry, &material, [5.25, 4.5, 1.5], [1.0, 1.0, 1.0]);
    assert_eq!((hit.voxel, hit.material), (UVec3::new(9, 8, 5), 43));
    assert_eq!(f32::from_bits(hit.t), 3.75);
    assert_eq!(hit.normal, ivec(-1, 0, 0));
}

#[test]
fn rays_that_hit_nothing_miss() {
    let (geometry, material) = model();
    assert_eq!(
        trace(&geometry, &material, [0.5, 0.5, 3.5], [1.0, 0.0, 0.0]),
        DenseVoxelHit::miss()
    );
    let hit = trace(&geometry, &material, [9.5, 8.5, 0.5], [0.0, 0.0, 1.0]);
    assert_eq!(hit.voxel, UVec3::new(9, 8, 5));
    let hit = trace(&geometry, &material, [0.5, 8.5, 0.5], [0.0, 0.0, 1.0]);
    assert_eq!(hit.voxel, UVec3::new(0, 8, 0));
    assert_eq!(hit.normal, ivec(0, 0, 0));
}

#[test]
fn voxels_without_a_material_are_passed() {
    let (mut geometry, material) = model();
    geometry.set_occupied([4, 1, 1]);
    let hit = trace(&geometry, &material, [9.5, 1.5, 1.5], [-1.0, 0.0, 0.0]);
    assert_eq!(hit.voxel, UVec3::new(2, 1, 1));
}
