use dust::bits;
use dust::math::IVec3;
use dust::math::UVec2;
use dust::math::UVec3;
use dust::shaders::bvh::component::PerComponent;
use dust::shaders::bvh::cwbvh;
use dust::shaders::bvh::cwbvh::CwBvhNode;
use dust::shaders::bvh::faststack::FastStack;
use dust::shaders::bvh::faststack::StackStack;
use dust::shaders::bvh::traversal::CwBvh;
use dust::shaders::bvh::traversal::Traversal;
use dust::shaders::bvh::traversal::TraversalStep;

fn node(imask: u8, child_base_idx: u32, primitive_base_idx: u32, child_meta: [u8; 8]) -> CwBvhNode {
    CwBvhNode {
        p: [0; 3],
        e: [127, 126, 128],
        imask,
        child_base_idx,
        primitive_base_idx,
        child_meta,
        child_min_x: [1; 8],
        child_max_x: [2; 8],
        child_min_y: [3; 8],
        child_max_y: [4; 8],
        child_min_z: [5; 8],
        child_max_z: [6; 8],
    }
}

#[test]
fn stacks_give_back_the_last_value() {
    let mut stack: StackStack<u32, 4> = StackStack::default();
    assert!(stack.is_empty());
    assert_eq!(stack.pop(), None);
    stack.push(5);
    stack.push(6);
    assert_eq!(stack.len(), 2);
    assert_eq!(stack.pop_fast(), 6);
    assert_eq!(stack.pop(), Some(5));
    stack.push(7);
    stack.clear();
    assert!(stack.is_empty());
}

#[test]
fn full_stacks_overwrite_the_last_position() {
    let mut stack: StackStack<u32, 3> = StackStack::filled_with(0);
    stack.push(1);
    stack.push(2);
    stack.push(3);
    assert_eq!(stack.len(), 3);
    stack.push(4);
    assert_eq!(stack.len(), 3);
    assert_eq!(stack.pop(), Some(4));
    assert_eq!(stack.pop(), Some(2));
    assert_eq!(stack.pop(), Some(1));
    assert_eq!(stack.pop(), None);
}

#[test]
fn the_last_position_holds_a_value() {
    let mut stack: StackStack<u32, 2> = StackStack::default();
    stack.push(1);
    stack.push(2);
    assert_eq!(stack.len(), 2);
    assert_eq!(stack.pop(), Some(2));
    assert_eq!(stack.pop_fast(), 1);
    assert!(stack.is_empty());
    let mut single: StackStack<u32, 1> = StackStack::default();
    single.push(7);
    assert_eq!(single.pop(), Some(7));
}

#[test]
fn components_are_mapped() {
    let tens: [u64; 3] = [1u32, 2, 3].per_comp(|c: u32| c as u64 * 10);
    assert_eq!(tens, [10, 20, 30]);
    let below: IVec3 = UVec3::new(1, 2, 3).per_comp(|c: u32| -(c as i32));
    assert_eq!(below, IVec3 { x: -1, y: -2, z: -3 });
    let above: UVec3 = below.per_comp(|c: i32| (5 - c) as u32);
    assert_eq!(above, UVec3::new(6, 7, 8));
}

#[test]
fn broken_hierarchies_are_told() {
    assert!(small_bvh().is_sound());
    assert!(CwBvh { nodes: Vec::new() }.is_sound());
    let mut lost = small_bvh();
    lost.nodes[0].child_base_idx = lost.nodes.len() as u32;
    assert!(!lost.is_sound());
    let mut far = small_bvh();
    far.nodes[0].primitive_base_idx = u32::MAX - 23;
    assert!(!far.is_sound());
    far.nodes[0].primitive_base_idx = u32::MAX - 24;
    assert!(far.is_sound());
    let leaf = |meta: u8| CwBvh { nodes: vec![node(0, 0, 0, [0, meta, 0, 0, 0, 0, 0, 0])] };
    assert!(leaf(0b1110_0000 | 21).is_sound());
    assert!(!leaf(0b1110_0000 | 22).is_sound());
    assert!(!leaf(56 + 1).is_sound());
}

#[test]
fn bytes_and_bits() {
    assert_eq!(cwbvh::extract_byte(0xddcc_bbaa, 2), 0xcc);
    assert_eq!(cwbvh::extract_byte64(0x1122_3344_5566_7788, 6), 0x22);
    assert_eq!(cwbvh::firstbithigh(0x0001_8000), 16);
    assert_eq!(cwbvh::ones_under(0b1011, 3), 2);
    assert_eq!(bits::count_ones(0xf0f0_0001), 9);
}

#[test]
fn octants_hold_the_direction() {
    assert_eq!(cwbvh::octant_inv4([false, false, false]), 0x0707_0707);
    assert_eq!(cwbvh::octant_inv4([true, false, true]), 0x0202_0202);
    assert_eq!(cwbvh::octant_inv4([true, true, true]), 0);
}

#[test]
fn children_of_a_node() {
    let node = node(0b0000_0101, 10, 100, [56, 0b0110_0000, 58, 0, 0b1110_0010, 0, 0, 0]);
    assert!(!node.is_leaf(0));
    assert!(node.is_leaf(1));
    assert!(node.is_child_empty(3));
    assert_eq!(node.child_primitives(1), (100, 2));
    assert_eq!(node.child_primitives(4), (102, 3));
    assert_eq!(node.child_node_index(0), 10);
    assert_eq!(node.child_node_index(2), 11);
    assert_eq!(node.extent_bits(), [1.0f32.to_bits(), 0.5f32.to_bits(), 2.0f32.to_bits()]);
    assert_eq!(node.child_planes(0, [false, true, false]), ([1, 4, 5], [2, 3, 6]));
}

#[test]
fn hit_masks_agree() {
    let node = node(0b0000_0101, 10, 100, [56, 0b0110_0000, 58, 0, 0b1110_0010, 0, 0, 0]);
    let hits = [true, true, true, false, true, false, false, false];
    for bits in 0..8u32 {
        let against = [bits & 1 != 0, bits & 2 != 0, bits & 4 != 0];
        let oct = cwbvh::octant_inv4(against);
        let by_child = node.intersect_ray(hits, oct);
        assert_eq!(by_child, node.intersect_ray_basic(hits, oct));
        assert_eq!(by_child, node.intersect_aabb(hits, oct));
        assert_eq!(by_child, node.contains_point(hits, oct));
        assert_eq!(by_child & 0x00ff_ffff, 0b11111);
    }
    assert_eq!(node.intersect_ray(hits, 0x0707_0707), (1 << 31) | (1 << 29) | 0b11111);
}

fn small_bvh() -> CwBvh {
    CwBvh {
        nodes: vec![
            node(0b0000_0101, 1, 0, [56, 0b0110_0000, 58, 0, 0, 0, 0, 0]),
            node(0, 0, 2, [0b0010_0000, 0b0010_0001, 0, 0, 0, 0, 0, 0]),
            node(0, 0, 4, [0b1110_0000, 0, 0, 0, 0, 0, 0, 0]),
        ],
    }
}

fn walk(bvh: &CwBvh, state: &mut Traversal, hits: [bool; 8]) -> (Vec<u32>, Vec<u32>) {
    let mut nodes = Vec::new();
    let mut primitives = Vec::new();
    loop {
        match bvh.next(state) {
            TraversalStep::Primitive(id) => primitives.push(id),
            TraversalStep::Node(index) => {
                nodes.push(index);
                bvh.visit(state, index, hits);
            }
            TraversalStep::Done => return (nodes, primitives),
        }
    }
}

#[test]
fn every_primitive_comes_once() {
    let bvh = small_bvh();
    for bits in 0..8u32 {
        let mut state = bvh.new_traversal([bits & 1 != 0, bits & 2 != 0, bits & 4 != 0]);
        let (mut nodes, mut primitives) = walk(&bvh, &mut state, [true; 8]);
        assert_eq!(nodes[0], 0);
        nodes.sort();
        primitives.sort();
        assert_eq!(nodes, vec![0, 1, 2]);
        assert_eq!(primitives, vec![0, 1, 2, 3, 4, 5, 6]);
    }
}

#[test]
fn directions_order_the_nodes() {
    let bvh = small_bvh();
    let mut state = bvh.new_traversal([false, false, false]);
    assert_eq!(walk(&bvh, &mut state, [true; 8]).0, vec![0, 1, 2]);
    state.reinit([true, true, true]);
    assert_eq!(walk(&bvh, &mut state, [true; 8]).0, vec![0, 2, 1]);
}

#[test]
fn children_that_are_not_hit_are_left_out() {
    let bvh = small_bvh();
    let mut state = bvh.new_traversal([false, false, false]);
    let (nodes, primitives) =
        walk(&bvh, &mut state, [false, true, true, false, false, false, false, false]);
    assert_eq!(nodes, vec![0, 2]);
    assert_eq!(primitives, vec![1, 0]);
}

#[test]
fn nothing_is_found_without_nodes() {
    let bvh = CwBvh { nodes: Vec::new() };
    let mut state = bvh.new_traversal([false, false, false]);
    assert_eq!(state.current_group, UVec2 { x: 0, y: 0 });
    assert_eq!(bvh.next(&mut state), TraversalStep::Done);
    let state = Traversal::default();
    assert_eq!(state.current_group, UVec2 { x: 0, y: 0x8000_0000 });
}
