//! The geometry of a model: the tree of its voxels, and where its leaves are kept.

use super::model;
use crate::math::UVec3;
use crate::vdb::encoding::NodeFormat;
use crate::vdb::encoding::NodeLayout;
use crate::vdb::encoding::PackedNodes;
use crate::vdb::storage;
use crate::vdb::storage::PoolStorage;
use crate::vdb::storage::StoredTree;
use crate::vdb::tree::Tree;
use vstd::prelude::*;

verus! {

/// A buffer for nodes that grows and shrinks. The address under which the device sees it comes with
/// each buffer.
pub struct VoxGeometryLeafStorage {
    buffer: Option<(Vec<u8>, u64)>,
    alignment: usize,
}

impl VoxGeometryLeafStorage {
    /// The alignment of the buffer.
    pub closed spec fn align(&self) -> usize {
        self.alignment
    }

    /// Storage without a buffer.
    pub fn new(alignment: usize) -> (r: VoxGeometryLeafStorage)
        ensures
            r.bytes().len() == 0,
            r.address() == 0,
            r.align() == alignment,
    {
        VoxGeometryLeafStorage { buffer: None, alignment }
    }

    /// The bytes of the buffer, none where there is no buffer.
    pub fn as_slice(&self) -> (r: &[u8])
        ensures
            r@ == self.bytes(),
    {
        match &self.buffer {
            Some((bytes, _)) => bytes.as_slice(),
            None => {
                let none: &[u8] = &[];
                none
            },
        }
    }
}

impl PoolStorage for VoxGeometryLeafStorage {
    closed spec fn bytes(&self) -> Seq<u8> {
        match self.buffer {
            Some((bytes, _)) => bytes@,
            None => Seq::empty(),
        }
    }

    closed spec fn address(&self) -> u64 {
        match self.buffer {
            Some((_, address)) => address,
            None => 0,
        }
    }

    /// The number of bytes of the buffer, none where there is no buffer.
    fn size(&self) -> (r: usize)
    {
        match &self.buffer {
            Some((bytes, _)) => bytes.len(),
            None => 0,
        }
    }

    /// The address under which the device sees the buffer, zero where there is none.
    fn device_address(&self) -> (r: u64)
    {
        match &self.buffer {
            Some((_, address)) => *address,
            None => 0,
        }
    }

    /// Replaces the buffer by one of another size at another address. The bytes that both have room
    /// for stay, and any others are zero.
    fn resize(&mut self, size: usize, address: u64)
        ensures
            final(self).align() == old(self).align(),
    {
        let mut bytes: Vec<u8> = Vec::new();
        let ghost before = self.bytes();
        let mut i: usize = 0;
        while i < size
            invariant
                i <= size,
                before == self.bytes(),
                bytes@.len() == i,
                forall|k: int|
                    0 <= k < i ==> bytes@[k] == (if k < before.len() {
                        before[k]
                    } else {
                        0
                    }),
            decreases size - i,
        {
            let byte: u8 = match &self.buffer {
                Some((known, _)) => if i < known.len() {
                    known[i]
                } else {
                    0
                },
                None => 0,
            };
            bytes.push(byte);
            i += 1;
        }
        self.buffer = Some((bytes, address));
        assert(self.bytes() =~= storage::resized(before, size));
    }

    /// Writes bytes over those of the buffer, from one on.
    fn write(&mut self, at: usize, part: &[u8])
        ensures
            final(self).align() == old(self).align(),
    {
        let ghost before = self.bytes();
        let (mut bytes, address): (Vec<u8>, u64) = match self.buffer.take() {
            Some(buffer) => buffer,
            None => {
                assert(self.bytes() =~= storage::overwritten(before, at as int, part@));
                return;
            },
        };
        let size: usize = bytes.len();
        let mut i: usize = 0;
        while i < part.len()
            invariant
                i <= part@.len(),
                size == before.len(),
                at + part@.len() <= before.len(),
                bytes@ == storage::overwritten(before, at as int, part@.take(i as int)),
            decreases part@.len() - i,
        {
            bytes.set(at + i, part[i]);
            i += 1;
            assert(bytes@ =~= storage::overwritten(before, at as int, part@.take(i as int)));
        }
        assert(part@.take(i as int) =~= part@);
        self.buffer = Some((bytes, address));
    }
}

/// The geometry of a model: a tree of materials, and, as the bits of a number, how wide its voxels
/// are.
pub struct VoxGeometry {
    pub tree: StoredTree<u8, VoxGeometryLeafStorage, PackedNodes>,
    pub unit_size: u32,
}

impl VoxGeometry {
    /// Geometry without voxels whose leaves are kept in storage of their alignment.
    pub fn new(unit_size: u32) -> (r: VoxGeometry)
        ensures
            r.unit_size == unit_size,
            r.tree.wf(),
            r.tree.held().levels() == model::material_levels(),
            forall|c: UVec3| #[trigger] r.tree.held().value(c) is None,
            r.tree.storages()[0] matches Some(storage) && storage.bytes().len() == 0
                && storage.address() == 0 && storage.align() == r.tree.written_as().layout_of(
                model::material_levels(),
                0,
            ).align,
            forall|l: int|
                0 < l < r.tree.storages().len() ==> #[trigger] r.tree.storages()[l] is None,
            r.tree.root_store() is None,
    {
        let hierarchy: [u32; 3] = [3, 3, 2];
        proof {
            assert(hierarchy@ =~= seq![3u32, 3, 2]);
            model::lemma_material_levels(hierarchy@);
        }
        let shape: Tree<u8> = Tree::new(hierarchy.as_slice());
        let layout: NodeLayout = PackedNodes.layout(shape.metas(), 0);
        let storage: VoxGeometryLeafStorage = VoxGeometryLeafStorage::new(layout.align);
        let tree: StoredTree<u8, VoxGeometryLeafStorage, PackedNodes> =
            StoredTree::new_with_leaf_storage(hierarchy.as_slice(), PackedNodes, storage);
        VoxGeometry { tree, unit_size }
    }
}

} // verus!
