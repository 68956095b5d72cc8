//! Which voxels of a dense model are occupied: one 64-bit word for each block.

use super::layout;
use super::layout::VoxelIndex;
use crate::bits;
use vstd::prelude::*;

verus! {

/// The occupancy of a dense model.
pub struct DenseVoxelGeometry {
    size: [u32; 3],
    occupancy: Vec<u64>,
    occupancy_handle: Option<u32>,
}

/// The occupancy words `after` are those `before` with bit `local` of word `block` set to `value`.
pub open spec fn words_updated(
    before: Seq<u64>,
    after: Seq<u64>,
    block: int,
    local: int,
    value: bool,
) -> bool {
    &&& after.len() == before.len()
    &&& forall|b: int| 0 <= b < before.len() && b != block ==> #[trigger] after[b] == before[b]
    &&& forall|i: u64|
        i < 64 ==> #[trigger] bits::bit64(after[block], i) == (if i == local {
            value
        } else {
            bits::bit64(before[block], i)
        })
}

impl DenseVoxelGeometry {
    /// The extents of the model in voxels.
    pub closed spec fn extents(&self) -> [u32; 3] {
        self.size
    }

    /// The occupancy words, one for each block.
    pub closed spec fn words(&self) -> Seq<u64> {
        self.occupancy@
    }

    /// The handle under which the words are registered.
    pub closed spec fn handle(&self) -> Option<u32> {
        self.occupancy_handle
    }

    /// The extents are valid and there is a word for each block.
    pub open spec fn wf(&self) -> bool {
        &&& layout::valid_size(self.extents())
        &&& self.words().len() == layout::block_count_spec(self.extents())
    }

    /// Whether the voxel at `coords` is occupied.
    pub open spec fn occupied(&self, coords: [u32; 3]) -> bool {
        bits::bit64(
            self.words()[layout::block_of(coords, self.extents())],
            layout::local_of(coords) as u64,
        )
    }

    /// An empty model of the largest size.
    pub fn new() -> (r: DenseVoxelGeometry)
        ensures
            r.wf(),
            r.extents()@ == seq![layout::MODEL_SIZE, layout::MODEL_SIZE, layout::MODEL_SIZE],
            forall|b: int| 0 <= b < r.words().len() ==> r.words()[b] == 0,
            r.handle() is None,
    {
        Self::with_size([layout::MODEL_SIZE, layout::MODEL_SIZE, layout::MODEL_SIZE])
    }

    /// An empty model of the given size.
    pub fn with_size(size: [u32; 3]) -> (r: DenseVoxelGeometry)
        requires
            layout::valid_size(size),
        ensures
            r.wf(),
            r.extents() == size,
            forall|b: int| 0 <= b < r.words().len() ==> r.words()[b] == 0,
            r.handle() is None,
    {
        let mut occupancy: Vec<u64> = Vec::new();
        occupancy.resize(layout::block_count(size), 0);
        DenseVoxelGeometry { size, occupancy, occupancy_handle: None }
    }

    /// The extents of the model in voxels.
    pub fn size(&self) -> (r: [u32; 3])
        ensures
            r == self.extents(),
    {
        self.size
    }

    /// The occupancy words.
    pub fn occupancy(&self) -> (r: &[u64])
        ensures
            r@ == self.words(),
    {
        self.occupancy.as_slice()
    }

    /// The occupancy words, to be written.
    pub fn occupancy_mut(&mut self) -> (r: &mut [u64])
        ensures
            r@ == old(self).words(),
            final(self).words() == final(r)@,
            final(self).extents() == old(self).extents(),
            final(self).handle() == old(self).handle(),
    {
        self.occupancy.as_mut_slice()
    }

    /// Keeps `handle` as the handle of the words, unless there is one.
    pub fn register_bindless(&mut self, handle: u32)
        ensures
            final(self).handle() == (if old(self).handle() is None {
                Some(handle)
            } else {
                old(self).handle()
            }),
            final(self).words() == old(self).words(),
            final(self).extents() == old(self).extents(),
    {
        if self.occupancy_handle.is_none() {
            self.occupancy_handle = Some(handle);
        }
    }

    /// The handle of the words.
    pub fn occupancy_bindless_handle(&self) -> (r: Option<u32>)
        ensures
            r == self.handle(),
    {
        self.occupancy_handle
    }

    /// Occupies the voxel at `coords`.
    pub fn set_occupied(&mut self, coords: [u32; 3])
        requires
            old(self).wf(),
            layout::in_bounds(coords, old(self).extents()),
        ensures
            final(self).wf(),
            final(self).extents() == old(self).extents(),
            final(self).handle() == old(self).handle(),
            words_updated(
                old(self).words(),
                final(self).words(),
                layout::block_of(coords, old(self).extents()),
                layout::local_of(coords),
                true,
            ),
    {
        let index: VoxelIndex = layout::voxel_index(coords, self.size);
        let bit: u64 = 1u64 << (index.local_index as u64);
        let word: u64 = self.occupancy[index.block_index];
        proof {
            assert forall|i: u64| i < 64 implies #[trigger] bits::bit64(word | bit, i) == (if i
                == index.local_index {
                true
            } else {
                bits::bit64(word, i)
            }) by {
                bits::lemma_bit64_or(word, index.local_index as u64, i);
            }
        }
        self.occupancy[index.block_index] = word | bit;
    }

    /// Frees the voxel at `coords`.
    pub fn clear_voxel(&mut self, coords: [u32; 3])
        requires
            old(self).wf(),
            layout::in_bounds(coords, old(self).extents()),
        ensures
            final(self).wf(),
            final(self).extents() == old(self).extents(),
            final(self).handle() == old(self).handle(),
            words_updated(
                old(self).words(),
                final(self).words(),
                layout::block_of(coords, old(self).extents()),
                layout::local_of(coords),
                false,
            ),
    {
        let index: VoxelIndex = layout::voxel_index(coords, self.size);
        let bit: u64 = 1u64 << (index.local_index as u64);
        let word: u64 = self.occupancy[index.block_index];
        proof {
            assert forall|i: u64| i < 64 implies #[trigger] bits::bit64(word & !bit, i) == (if i
                == index.local_index {
                false
            } else {
                bits::bit64(word, i)
            }) by {
                bits::lemma_bit64_and_not(word, index.local_index as u64, i);
            }
        }
        self.occupancy[index.block_index] = word & !bit;
    }

    /// Whether the voxel at `coords` is occupied.
    pub fn is_occupied(&self, coords: [u32; 3]) -> (r: bool)
        requires
            self.wf(),
            layout::in_bounds(coords, self.extents()),
        ensures
            r == self.occupied(coords),
    {
        let index: VoxelIndex = layout::voxel_index(coords, self.size);
        let word: u64 = self.occupancy[index.block_index];
        proof {
            bits::lemma_bit64_test(word, index.local_index as u64);
        }
        ((word >> (index.local_index as u64)) & 1) != 0
    }

    /// The occupancy word of a block.
    pub fn block_occupancy(&self, block_index: usize) -> (r: u64)
        requires
            block_index < self.words().len(),
        ensures
            r == self.words()[block_index as int],
    {
        self.occupancy[block_index]
    }
}

/// Writing one voxel changes that voxel and no other.
pub proof fn law_words_updated_voxels(
    before: DenseVoxelGeometry,
    after: DenseVoxelGeometry,
    coords: [u32; 3],
    other: [u32; 3],
    value: bool,
)
    requires
        before.wf(),
        after.extents() == before.extents(),
        layout::in_bounds(coords, before.extents()),
        layout::in_bounds(other, before.extents()),
        words_updated(
            before.words(),
            after.words(),
            layout::block_of(coords, before.extents()),
            layout::local_of(coords),
            value,
        ),
    ensures
        after.occupied(other) == (if other == coords {
            value
        } else {
            before.occupied(other)
        }),
{
    layout::lemma_block_of_bound(coords, before.extents());
    layout::lemma_block_of_bound(other, before.extents());
    if layout::block_of(coords, before.extents()) == layout::block_of(other, before.extents())
        && layout::local_of(coords) == layout::local_of(other) {
        layout::lemma_voxel_unique(coords, other, before.extents());
    }
}

} // verus!
