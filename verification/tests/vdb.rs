use dust::math::UVec3;
use dust::vdb::encoding::NodeFormat;
use dust::vdb::encoding::NodeLayout;
use dust::vdb::encoding::PackedNodes;
use dust::vdb::storage::PoolStorage;
use dust::vdb::storage::StoredTree;
use dust::vdb::tree::Node;
use dust::vdb::tree::Tree;
use dust::vox::geometry::VoxGeometry;
use dust::vox::geometry::VoxGeometryLeafStorage;
use std::cell::RefCell;

#[test]
fn values_are_read_back() {
    let mut tree: Tree<bool> = Tree::new(&[2, 2]);
    tree.set_value(UVec3::new(0, 4, 0), Some(true));
    tree.set_value(UVec3::new(0, 2, 2), Some(false));
    assert_eq!(tree.get_value(UVec3::new(0, 4, 0)), Some(true));
    assert_eq!(tree.get_value(UVec3::new(0, 3, 0)), None);
    assert_eq!(tree.get_value(UVec3::new(0, 2, 2)), Some(false));
}

#[test]
fn voxels_are_listed_in_order() {
    let mut tree: Tree<bool> = Tree::new(&[4, 2]);
    tree.set_value(UVec3::new(0, 1, 2), Some(true));
    tree.set_value(UVec3::new(63, 1, 3), Some(true));
    tree.set_value(UVec3::new(63, 63, 63), Some(true));
    assert_eq!(
        tree.iter(),
        vec![UVec3::new(0, 1, 2), UVec3::new(63, 1, 3), UVec3::new(63, 63, 63)]
    );
}

#[test]
fn values_are_taken_away() {
    let mut tree: Tree<u8> = Tree::new(&[3, 3, 2]);
    tree.set_value(UVec3::new(255, 0, 128), Some(9));
    assert_eq!(tree.get_value(UVec3::new(255, 0, 128)), Some(9));
    tree.set_value(UVec3::new(255, 0, 128), None);
    assert_eq!(tree.get_value(UVec3::new(255, 0, 128)), None);
    assert!(tree.iter().is_empty());
}

#[test]
fn leaves_are_listed_and_counted() {
    let mut tree: Tree<u8> = Tree::new(&[3, 3, 2]);
    assert_eq!(tree.count_leaves(), 0);
    tree.set_value(UVec3::new(0, 0, 0), Some(1));
    tree.set_value(UVec3::new(3, 3, 3), Some(2));
    tree.set_value(UVec3::new(4, 0, 0), Some(3));
    tree.set_value(UVec3::new(252, 255, 253), Some(4));
    assert_eq!(tree.count_leaves(), 3);
    let places: Vec<UVec3> = tree.iter_leaf().iter().map(|leaf| leaf.0).collect();
    assert_eq!(
        places,
        vec![UVec3::new(0, 0, 0), UVec3::new(4, 0, 0), UVec3::new(252, 252, 252)]
    );
    assert_eq!(tree.iter().len(), 4);
}

#[test]
fn nodes_are_handed_out() {
    let mut tree: Tree<u8> = Tree::new(&[2, 2]);
    assert_eq!(tree.level_count(), 2);
    assert_eq!(tree.metas()[0].fan, 4);
    assert_eq!(tree.metas()[1].cell, 4);
    tree.set_value(UVec3::new(1, 2, 3), Some(5));
    let (origin, leaf) = tree.iter_leaf()[0];
    assert_eq!(origin, UVec3::new(0, 0, 0));
    match tree.get_node(0, leaf) {
        Node::Leaf { values } => assert_eq!(values[1 * 16 + 2 * 4 + 3], Some(5)),
        Node::Internal { .. } => panic!("a leaf is expected"),
    }
    if let Node::Leaf { values } = tree.get_node_mut(0, leaf) {
        values[0] = Some(6);
    }
    assert_eq!(tree.get_value(UVec3::new(0, 0, 0)), Some(6));
    assert_eq!(tree.get_value(UVec3::new(1, 2, 3)), Some(5));
}

#[test]
fn nodes_are_allocated_blank() {
    let mut tree: Tree<u8> = Tree::new(&[2, 2]);
    assert_eq!(tree.pool_len(0), 0);
    assert_eq!(tree.alloc_node(0), 0);
    assert_eq!(tree.alloc_node(0), 1);
    assert_eq!(tree.pool_len(0), 2);
    assert_eq!(tree.pool_len(1), 1);
    match tree.get_node(0, 1) {
        Node::Leaf { values } => assert!(values.len() == 64 && values.iter().all(|v| v.is_none())),
        Node::Internal { .. } => panic!("a leaf is expected"),
    }
    assert!(tree.iter().is_empty());
}

#[test]
fn leaves_are_changed_in_place() {
    let mut tree: Tree<u8> = Tree::new(&[2, 2]);
    tree.set_value(UVec3::new(0, 0, 1), Some(3));
    tree.set_value(UVec3::new(5, 6, 7), Some(4));
    let leaves = tree.iter_leaf();
    assert_eq!(leaves.len(), 2);
    {
        let (base, values) = tree.iter_leaf_mut(1).unwrap();
        assert_eq!(base, UVec3::new(4, 4, 4));
        assert_eq!(values.len(), 64);
        assert_eq!(values[(4 + 2) * 4 + 3], Some(4));
        values[(4 + 2) * 4 + 3] = None;
        values[0] = Some(9);
    }
    assert_eq!(tree.get_value(UVec3::new(5, 6, 7)), None);
    assert_eq!(tree.get_value(UVec3::new(4, 4, 4)), Some(9));
    assert_eq!(tree.get_value(UVec3::new(0, 0, 1)), Some(3));
    assert_eq!(tree.iter_leaf(), leaves);
    assert!(tree.iter_leaf_mut(2).is_none());
}

#[test]
fn storage_keeps_what_fits() {
    let mut storage = VoxGeometryLeafStorage::new(16);
    assert_eq!(storage.device_address(), 0);
    assert!(storage.as_slice().is_empty());
    storage.resize(4, 0x1000);
    assert_eq!(storage.as_slice(), &[0, 0, 0, 0]);
    assert_eq!(storage.device_address(), 0x1000);
    storage.resize(2, 0x2000);
    assert_eq!(storage.as_slice().len(), 2);
    assert_eq!(storage.device_address(), 0x2000);
}

fn packed(tree: &Tree<u8>, level: usize, node: u32) -> Vec<u8> {
    PackedNodes.encode(tree.metas(), level, tree.get_node(level, node))
}

fn assert_kept(stored: &StoredTree<u8, VoxGeometryLeafStorage, PackedNodes>) {
    let tree = stored.tree();
    let top = stored.pool_count();
    for level in 0..top {
        let Some(storage) = stored.pool_storage(level) else {
            continue;
        };
        let apart = PackedNodes.layout(tree.metas(), level).padded();
        for node in 0..tree.pool_len(level) {
            let bytes = packed(tree, level, node as u32);
            assert_eq!(&storage.as_slice()[node * apart..node * apart + bytes.len()], &bytes[..]);
        }
    }
    if let Some(storage) = stored.root_storage() {
        let bytes = packed(tree, top, 0);
        assert_eq!(storage.as_slice().len(), PackedNodes.layout(tree.metas(), top).padded());
        assert_eq!(&storage.as_slice()[..bytes.len()], &bytes[..]);
    }
}

#[test]
fn trees_know_where_their_nodes_are_kept() {
    let inline: StoredTree<u8, VoxGeometryLeafStorage, PackedNodes> =
        StoredTree::new(&[3, 3, 2], PackedNodes);
    assert_eq!(inline.root_device_address(), 0);
    assert!(inline.root_storage().is_none());
    assert!((0..2).all(|level| inline.pool_storage(level).is_none()));

    let leaves: StoredTree<u8, VoxGeometryLeafStorage, PackedNodes> =
        StoredTree::new_with_leaf_storage(&[3, 3, 2], PackedNodes, VoxGeometryLeafStorage::new(8));
    assert!(leaves.pool_storage(0).is_some());
    assert!(leaves.pool_storage(1).is_none());
    assert_eq!(leaves.root_device_address(), 0);

    let asked = RefCell::new(Vec::new());
    let mut all: StoredTree<u8, VoxGeometryLeafStorage, PackedNodes> =
        StoredTree::new_with_all_node_storage(&[3, 3, 2], PackedNodes, 0x4000, |level, layout| {
            asked.borrow_mut().push((level, layout));
            let mut storage = VoxGeometryLeafStorage::new(layout.align);
            storage.resize(level + 1, 0x100 * (level as u64 + 1));
            storage
        });
    let layouts = [
        NodeLayout { size: 8 + 64, align: 4 },
        NodeLayout { size: 64 + 4 * 512, align: 4 },
        NodeLayout { size: 64 + 4 * 512, align: 4 },
    ];
    assert_eq!(*asked.borrow(), vec![(0, layouts[0]), (1, layouts[1]), (2, layouts[2])]);
    assert_eq!(all.pool_count(), 2);
    for level in 0..2 {
        let storage = all.pool_storage(level).unwrap();
        assert_eq!(storage.as_slice().len(), level + 1);
        assert_eq!(storage.device_address(), 0x100 * (level as u64 + 1));
    }
    assert_eq!(all.root_device_address(), 0x4000);
    assert_eq!(all.root_storage().unwrap().as_slice(), vec![0; 64 + 4 * 512]);
    all.root_storage_mut().unwrap().resize(8, 0x5000);
    assert_eq!(all.root_device_address(), 0x5000);
}

#[test]
fn storage_follows_the_tree() {
    let mut stored: StoredTree<u8, VoxGeometryLeafStorage, PackedNodes> =
        StoredTree::new_with_node_storage(&[3, 3, 2], PackedNodes, 0x4000, |_, layout| {
            VoxGeometryLeafStorage::new(layout.align)
        });
    let asked = RefCell::new(Vec::new());
    let allocate = |level: usize, size: usize| {
        asked.borrow_mut().push((level, size));
        0x1000 * (level as u64 + 1) + asked.borrow().len() as u64
    };
    stored.set_value(UVec3::new(0, 0, 1), Some(7), allocate);
    assert_eq!(*asked.borrow(), vec![(1, 64 + 4 * 512), (0, 72)]);
    assert_kept(&stored);
    let leaf = stored.pool_storage(0).unwrap();
    assert_eq!(leaf.device_address(), 0x1002);
    assert_eq!((leaf.as_slice()[0], leaf.as_slice()[8 + 1]), (0b10, 7));
    assert_eq!(stored.root_storage().unwrap().as_slice()[0], 1);

    stored.set_value(UVec3::new(255, 4, 0), Some(8), allocate);
    stored.set_value(UVec3::new(9, 9, 9), None, allocate);
    stored.set_value(UVec3::new(0, 0, 1), None, allocate);
    assert_kept(&stored);
    assert_eq!(stored.pool_storage(0).unwrap().as_slice().len(), 2 * 72);
    assert_eq!(stored.pool_storage(0).unwrap().as_slice()[8 + 1], 0);
    assert_eq!(stored.tree().get_value(UVec3::new(0, 0, 1)), None);
    assert_eq!(stored.tree().get_value(UVec3::new(255, 4, 0)), Some(8));
    assert_eq!(stored.root_device_address(), 0x4000);

    let mut other: Tree<u8> = Tree::new(&[3, 3, 2]);
    for k in 0..40 {
        other.set_value(UVec3::new(6 * k, 3 * k, 255 - 5 * k), Some(k as u8));
    }
    let voxels = other.iter();
    stored.replace(other, allocate);
    assert_kept(&stored);
    assert_eq!(stored.tree().iter(), voxels);
}

#[test]
fn nodes_are_packed() {
    let mut tree: Tree<u8> = Tree::new(&[1, 1]);
    tree.set_value(UVec3::new(1, 0, 1), Some(5));
    tree.set_value(UVec3::new(3, 3, 3), Some(6));
    assert_eq!(packed(&tree, 0, 0), vec![0b10_0000, 0, 0, 0, 0, 0, 0, 0, 0, 5, 0, 0]);
    let root = packed(&tree, 1, 0);
    assert_eq!(root.len(), 4 + 4 * 8);
    assert_eq!(root[..8], [0b1000_0001, 0, 0, 0, 0, 0, 0, 0]);
    assert_eq!(root[4 + 4 * 7..], [1, 0, 0, 0]);
}

#[test]
fn leaves_come_where_values_are_set() {
    let mut tree: Tree<u8> = Tree::new(&[2, 2]);
    tree.set_value(UVec3::new(9, 9, 9), None);
    assert_eq!(tree.count_leaves(), 0);
    tree.set_value(UVec3::new(9, 6, 3), Some(1));
    tree.set_value(UVec3::new(11, 7, 0), Some(2));
    tree.set_value(UVec3::new(9, 6, 3), None);
    assert_eq!(tree.iter_leaf(), vec![(UVec3::new(8, 4, 0), 0)]);
    tree.set_value(UVec3::new(0, 0, 0), Some(3));
    assert_eq!(tree.iter_leaf(), vec![(UVec3::new(0, 0, 0), 1), (UVec3::new(8, 4, 0), 0)]);
}

#[test]
fn sizes_are_rounded_up() {
    assert_eq!(NodeLayout { size: 9, align: 4 }.padded(), 12);
    assert_eq!(NodeLayout { size: 12, align: 4 }.padded(), 12);
    assert_eq!(NodeLayout { size: 0, align: 16 }.padded(), 0);
}

#[test]
fn bytes_are_written_over_others() {
    let mut storage = VoxGeometryLeafStorage::new(4);
    storage.resize(4, 0x1000);
    storage.write(0, &[1, 2, 3, 4]);
    storage.write(1, &[9, 8]);
    assert_eq!(storage.as_slice(), &[1, 9, 8, 4]);
    assert_eq!(storage.size(), 4);
    assert_eq!(storage.device_address(), 0x1000);
    storage.resize(3, 0x2000);
    assert_eq!(storage.as_slice(), &[1, 9, 8]);
}

#[test]
fn geometry_starts_empty() {
    let geometry = VoxGeometry::new(1.5f32.to_bits());
    assert_eq!(f32::from_bits(geometry.unit_size), 1.5);
    assert_eq!(geometry.tree.tree().get_value(UVec3::new(255, 255, 255)), None);
    assert!(geometry.tree.pool_storage(0).is_some());
}
