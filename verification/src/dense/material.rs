//! The materials of a dense model: one reference for each block, to one material for the whole
//! block or to a page with a material for each of its voxels.

use super::geometry;
use super::geometry::DenseVoxelGeometry;
use super::layout;
use super::layout::VoxelIndex;
use crate::bits;
use crate::bytes;
use vstd::prelude::*;

verus! {

/// The parameters of one material, each number as the bits of an `f32`.
#[derive(Clone, Copy, Debug, PartialEq, Eq)]
pub struct DenseMaterialParam {
    pub base_color: [u32; 4],
    pub pbr: [u32; 4],
}

/// The bits of 1.0.
pub const ONE_BITS: u32 = 0x3f80_0000;

/// The bits of 0.6.
pub const SIX_TENTHS_BITS: u32 = 0x3f19_999a;

/// The bits of 0.5.
pub const HALF_BITS: u32 = 0x3f00_0000;

/// An opaque white material that is no metal, of medium roughness.
pub open spec fn default_param() -> DenseMaterialParam {
    DenseMaterialParam {
        base_color: [ONE_BITS, ONE_BITS, ONE_BITS, ONE_BITS],
        pbr: [0, SIX_TENTHS_BITS, HALF_BITS, 0],
    }
}

impl Default for DenseMaterialParam {
    fn default() -> (r: DenseMaterialParam)
        ensures
            r == default_param(),
            r.base_color@ == seq![0x3f80_0000u32, 0x3f80_0000, 0x3f80_0000, 0x3f80_0000],
            r.pbr@ == seq![0u32, 0x3f19_999a, 0x3f00_0000, 0],
    {
        DenseMaterialParam {
            base_color: [ONE_BITS, ONE_BITS, ONE_BITS, ONE_BITS],
            pbr: [0, SIX_TENTHS_BITS, HALF_BITS, 0],
        }
    }
}


/// The material references, material pages and material parameters of a dense model.
pub struct DenseVoxelMaterial {
    size: [u32; 3],
    material_refs: Vec<u32>,
    material_refs_handle: Option<u32>,
    material_pages: Vec<u8>,
    material_pages_handle: Option<u32>,
    material_pages_moved: bool,
    material_params: Vec<DenseMaterialParam>,
    material_params_handle: Option<u32>,
    material_page_count: usize,
}

/// The number of pages that there is room for, once `required` pages have been asked for.
pub open spec fn reserved(capacity: nat, required: nat) -> nat {
    if required <= capacity {
        capacity
    } else {
        let grown = layout::power_of_two_from(1, required);
        if grown < layout::INITIAL_MATERIAL_PAGE_CAPACITY {
            layout::INITIAL_MATERIAL_PAGE_CAPACITY as nat
        } else {
            grown
        }
    }
}

/// Whether `after` is `before` once the voxel at `coords` has got the material `material`: a block
/// without a reference or with that material alone refers to the material, a block with another
/// material alone gets a page, and on a page the voxel's material is written.
pub open spec fn voxel_written(
    before: DenseVoxelMaterial,
    after: DenseVoxelMaterial,
    coords: [u32; 3],
    material: u8,
) -> bool {
    let block = layout::block_of(coords, before.extents());
    let local = layout::local_of(coords);
    let material_ref = before.refs()[block];
    let count = before.page_count();
    &&& after.same_otherwise(&before)
    &&& forall|p: int|
        0 <= p < count && !(layout::page_ref(material_ref) && p == layout::page_of(material_ref))
            ==> #[trigger] after.page(p) == before.page(p)
    &&& if material_ref == layout::EMPTY_MATERIAL_REF {
        &&& after.refs() == before.refs().update(block, material as u32)
        &&& pages_kept(before, after)
    } else if layout::uniform_ref(material_ref) {
        if layout::uniform_of(material_ref) == material {
            &&& after.refs() == before.refs()
            &&& pages_kept(before, after)
        } else {
            &&& after.refs() == before.refs().update(
                block,
                (layout::MATERIAL_PAGE_FLAG + count) as u32,
            )
            &&& after.page_count() == count + 1
            &&& after.page_capacity() == reserved(before.page_capacity(), (count + 1) as nat)
            &&& after.moved() == (before.moved() || (before.handles().1 is Some && count + 1
                > before.page_capacity()))
            &&& after.page(count as int) == Seq::new(
                64,
                |i: int|
                    if i == local {
                        material
                    } else {
                        layout::uniform_of(material_ref)
                    },
            )
        }
    } else {
        let page = layout::page_of(material_ref);
        &&& after.refs() == before.refs()
        &&& pages_kept(before, after)
        &&& after.page(page) == before.page(page).update(local, material)
    }
}

/// The references once that of a block has been dropped, where the block has no voxels.
pub open spec fn reference_dropped(refs: Seq<u32>, words: Seq<u64>, block: int) -> Seq<u32> {
    if words[block] == 0 {
        refs.update(block, layout::EMPTY_MATERIAL_REF)
    } else {
        refs
    }
}

/// The first handle, or else the second.
pub open spec fn first_handle(first: Option<u32>, second: Option<u32>) -> Option<u32> {
    if first is Some {
        first
    } else {
        second
    }
}

/// A handle that there is stays, whatever the other is.
pub proof fn law_first_handle(handle: u32, second: Option<u32>)
    ensures
        first_handle(Some(handle), second) == Some(handle),
        first_handle(None, second) == second,
{
}

/// Whether the same number of pages is in use, in the same storage.
pub open spec fn pages_kept(before: DenseVoxelMaterial, after: DenseVoxelMaterial) -> bool {
    &&& after.page_count() == before.page_count()
    &&& after.page_capacity() == before.page_capacity()
    &&& after.moved() == before.moved()
}

/// Whether every occupied voxel of a block has the material `material` on the block's page.
pub open spec fn single_material(occupancy: u64, page: Seq<u8>, material: u8) -> bool {
    forall|i: u64| i < 64 && #[trigger] bits::bit64(occupancy, i) ==> page[i as int] == material
}

/// Whether the occupied voxels of a block have more than one material on the block's page.
pub open spec fn mixed(occupancy: u64, page: Seq<u8>) -> bool {
    forall|material: u8| !#[trigger] single_material(occupancy, page, material)
}

/// Whether the voxels of a block need a page: there are some, of more than one material.
pub open spec fn needs_page(words: Seq<u64>, material: DenseVoxelMaterial, block: int) -> bool {
    &&& words[block] != 0
    &&& !layout::uniform_ref(material.refs()[block])
    &&& mixed(words[block], material.page(layout::page_of(material.refs()[block])))
}

/// The number of blocks below `block` that need a page.
pub open spec fn pages_before(words: Seq<u64>, material: DenseVoxelMaterial, block: nat) -> nat
    decreases block,
{
    if block == 0 {
        0
    } else {
        pages_before(words, material, (block - 1) as nat) + if needs_page(
            words,
            material,
            block - 1,
        ) {
            1nat
        } else {
            0nat
        }
    }
}

/// Whether `material_ref` is the reference of a block once the pages have been rebuilt.
pub open spec fn rebuilt_ref(
    words: Seq<u64>,
    before: DenseVoxelMaterial,
    block: int,
    material_ref: u32,
) -> bool {
    if words[block] == 0 {
        material_ref == layout::EMPTY_MATERIAL_REF
    } else if layout::uniform_ref(before.refs()[block]) {
        material_ref == before.refs()[block]
    } else if needs_page(words, before, block) {
        material_ref == layout::MATERIAL_PAGE_FLAG + pages_before(words, before, block as nat)
    } else {
        &&& material_ref < 256
        &&& single_material(
            words[block],
            before.page(layout::page_of(before.refs()[block])),
            material_ref as u8,
        )
    }
}

/// Whether `after` is `before` once its pages have been rebuilt: the blocks that need a page have
/// one, in the order of the blocks, and there are no other pages.
pub open spec fn pages_rebuilt(
    words: Seq<u64>,
    before: DenseVoxelMaterial,
    after: DenseVoxelMaterial,
) -> bool {
    let count = pages_before(words, before, before.refs().len());
    &&& after.same_otherwise(&before)
    &&& after.refs().len() == before.refs().len()
    &&& forall|b: int|
        0 <= b < before.refs().len() ==> rebuilt_ref(words, before, b, #[trigger] after.refs()[b])
    &&& after.page_count() == count
    &&& after.page_capacity() == reserved(before.page_capacity(), count)
    &&& after.moved() == (before.moved() || (before.handles().1 is Some && count
        > before.page_capacity()))
    &&& forall|b: int|
        0 <= b < before.refs().len() && #[trigger] needs_page(words, before, b) ==> after.page(
            pages_before(words, before, b as nat) as int,
        ) == before.page(layout::page_of(before.refs()[b]))
}

pub proof fn lemma_pages_before(words: Seq<u64>, material: DenseVoxelMaterial, a: nat, b: nat)
    requires
        a <= b,
    ensures
        pages_before(words, material, a) <= pages_before(words, material, b),
        pages_before(words, material, b) - pages_before(words, material, a) <= b - a,
        a < b && needs_page(words, material, a as int) ==> pages_before(words, material, a)
            < pages_before(words, material, b),
    decreases b - a,
{
    if a < b {
        lemma_pages_before(words, material, a, (b - 1) as nat);
    }
}

impl DenseVoxelMaterial {
    /// The extents of the model in voxels.
    pub closed spec fn extents(&self) -> [u32; 3] {
        self.size
    }

    /// The material references, one for each block.
    pub closed spec fn refs(&self) -> Seq<u32> {
        self.material_refs@
    }

    /// The number of pages in use.
    pub closed spec fn page_count(&self) -> nat {
        self.material_page_count as nat
    }

    /// The number of pages that there is room for.
    pub closed spec fn page_capacity(&self) -> nat {
        self.material_pages@.len() / 64
    }

    /// The materials on a page, in the order of the voxels in a block.
    pub closed spec fn page(&self, index: int) -> Seq<u8> {
        self.material_pages@.subrange(index * 64, index * 64 + 64)
    }

    /// The parameters of the materials.
    pub closed spec fn params(&self) -> Seq<DenseMaterialParam> {
        self.material_params@
    }

    /// The handles of the references, the pages and the parameters.
    pub closed spec fn handles(&self) -> (Option<u32>, Option<u32>, Option<u32>) {
        (self.material_refs_handle, self.material_pages_handle, self.material_params_handle)
    }

    /// Whether the pages have been given new storage since their handle was last set.
    pub closed spec fn moved(&self) -> bool {
        self.material_pages_moved
    }

    /// Whether the storage of the pages is a whole number of pages.
    pub closed spec fn storage_whole(&self) -> bool {
        self.material_pages@.len() % 64 == 0
    }

    /// The extents are valid, there is a reference for each block and a set of parameters for
    /// each material, and the pages in use have room.
    pub open spec fn wf(&self) -> bool {
        &&& layout::valid_size(self.extents())
        &&& self.refs().len() == layout::block_count_spec(self.extents())
        &&& self.params().len() == 256
        &&& self.page_count() <= self.page_capacity()
        &&& self.storage_whole()
    }

    /// A page holds a material for each voxel of a block.
    pub proof fn lemma_page_len(&self, index: int)
        requires
            self.wf(),
            0 <= index < self.page_count(),
        ensures
            self.page(index).len() == 64,
    {
    }

    /// The material of the voxel at `coords`, where it is occupied.
    pub open spec fn material_at(
        &self,
        geometry: &DenseVoxelGeometry,
        coords: [u32; 3],
    ) -> Option<u8> {
        let material_ref = self.refs()[layout::block_of(coords, self.extents())];
        if !geometry.occupied(coords) {
            None
        } else if layout::uniform_ref(material_ref) {
            Some(layout::uniform_of(material_ref))
        } else {
            Some(self.page(layout::page_of(material_ref))[layout::local_of(coords)])
        }
    }

    /// Whether the reference of a block tells the materials of its voxels.
    pub open spec fn resolves(&self, block: int) -> bool {
        ||| layout::uniform_ref(self.refs()[block])
        ||| layout::page_ref(self.refs()[block]) && layout::page_of(self.refs()[block])
            < self.page_count()
    }

    /// Whether the references of all blocks with voxels tell their materials.
    pub open spec fn resolves_occupied(&self, geometry: &DenseVoxelGeometry) -> bool {
        forall|b: int|
            0 <= b < self.refs().len() && #[trigger] geometry.words()[b] != 0 ==> self.resolves(b)
    }

    /// Whether every reference to a page is to a page in use, and no two are to the same.
    pub open spec fn pages_owned(&self) -> bool {
        &&& forall|b: int|
            0 <= b < self.refs().len() && layout::page_ref(#[trigger] self.refs()[b])
                ==> layout::page_of(self.refs()[b]) < self.page_count()
        &&& forall|a: int, b: int|
            0 <= a < self.refs().len() && 0 <= b < self.refs().len() && a != b && layout::page_ref(
                #[trigger] self.refs()[a],
            ) && layout::page_ref(#[trigger] self.refs()[b]) ==> self.refs()[a] != self.refs()[b]
    }

    /// Whether the voxel at `coords` can be given a material: its block refers to no page that is
    /// not in use, and a page can be added where one is needed.
    pub open spec fn can_write(&self, coords: [u32; 3], material: u8) -> bool {
        let material_ref = self.refs()[layout::block_of(coords, self.extents())];
        &&& layout::page_ref(material_ref) ==> layout::page_of(material_ref) < self.page_count()
        &&& layout::uniform_ref(material_ref) && layout::uniform_of(material_ref) != material ==> {
            &&& self.page_count() <= layout::MATERIAL_PAGE_MASK
            &&& (self.page_count() + 1) * 128 <= usize::MAX
        }
    }

    /// Whether nothing but the references, the pages in use and their storage differ.
    pub open spec fn same_otherwise(&self, other: &DenseVoxelMaterial) -> bool {
        &&& self.extents() == other.extents()
        &&& self.params() == other.params()
        &&& self.handles() == other.handles()
    }

    /// The materials of an empty model of the largest size.
    pub fn new() -> (r: DenseVoxelMaterial)
        ensures
            r.wf(),
            r.extents()@ == seq![layout::MODEL_SIZE, layout::MODEL_SIZE, layout::MODEL_SIZE],
            forall|b: int| 0 <= b < r.refs().len() ==> r.refs()[b] == layout::EMPTY_MATERIAL_REF,
            forall|i: int| 0 <= i < 256 ==> r.params()[i] == default_param(),
            r.page_count() == 0,
            r.page_capacity() == layout::INITIAL_MATERIAL_PAGE_CAPACITY,
            r.handles() == (None::<u32>, None::<u32>, None::<u32>),
            !r.moved(),
    {
        Self::with_size([layout::MODEL_SIZE, layout::MODEL_SIZE, layout::MODEL_SIZE])
    }

    /// The materials of an empty model of the given size.
    pub fn with_size(size: [u32; 3]) -> (r: DenseVoxelMaterial)
        requires
            layout::valid_size(size),
        ensures
            r.wf(),
            r.extents() == size,
            forall|b: int| 0 <= b < r.refs().len() ==> r.refs()[b] == layout::EMPTY_MATERIAL_REF,
            forall|i: int| 0 <= i < 256 ==> r.params()[i] == default_param(),
            r.page_count() == 0,
            r.page_capacity() == layout::INITIAL_MATERIAL_PAGE_CAPACITY,
            r.handles() == (None::<u32>, None::<u32>, None::<u32>),
            !r.moved(),
    {
        let mut material_refs: Vec<u32> = Vec::new();
        material_refs.resize(layout::block_count(size), layout::EMPTY_MATERIAL_REF);
        let mut material_pages: Vec<u8> = Vec::new();
        material_pages.resize(
            layout::material_pages_bytes(layout::INITIAL_MATERIAL_PAGE_CAPACITY),
            0,
        );
        let mut material_params: Vec<DenseMaterialParam> = Vec::new();
        let mut i: usize = 0;
        while i < 256
            invariant
                i <= 256,
                material_params@.len() == i,
                forall|k: int| 0 <= k < i ==> material_params@[k] == default_param(),
            decreases 256 - i,
        {
            material_params.push(DenseMaterialParam::default());
            i += 1;
        }
        DenseVoxelMaterial {
            size,
            material_refs,
            material_refs_handle: None,
            material_pages,
            material_pages_handle: None,
            material_pages_moved: false,
            material_params,
            material_params_handle: None,
            material_page_count: 0,
        }
    }

    /// The materials on all pages in use.
    pub fn material_pages(&self) -> (r: &[[u8; 64]])
        requires
            self.wf(),
        ensures
            r@.len() == self.page_count(),
            forall|p: int| 0 <= p < r@.len() ==> #[trigger] r@[p]@ == self.page(p),
    {
        let used: &[u8] = self.material_pages_bytes();
        let r: &[[u8; 64]] = bytes::pages_of_bytes(used);
        assert forall|p: int| 0 <= p < r@.len() implies #[trigger] r@[p]@ == self.page(p) by {
            assert forall|i: int| 0 <= i < 64 implies r@[p]@[i] == self.page(p)[i] by {
                assert(r@[p]@[i] == used@[p * 64 + i]);
            }
            assert(r@[p]@ =~= self.page(p));
        }
        r
    }

    /// The bytes of all pages in use.
    pub fn material_pages_bytes(&self) -> (r: &[u8])
        requires
            self.wf(),
        ensures
            r@.len() == self.page_count() * 64,
            forall|p: int, i: int|
                0 <= p < self.page_count() && 0 <= i < 64 ==> #[trigger] self.page(p)[i] == r@[p * 64
                    + i],
    {
        vstd::slice::slice_subrange(
            self.material_pages.as_slice(),
            0,
            self.material_pages_len_bytes(),
        )
    }

    /// The number of pages that there is room for.
    pub fn material_pages_capacity(&self) -> (r: usize)
        ensures
            r == self.page_capacity(),
    {
        self.material_pages.len() / layout::MATERIAL_PAGE_SIZE
    }

    fn material_pages_len_bytes(&self) -> (r: usize)
        requires
            self.wf(),
        ensures
            r == self.page_count() * 64,
            r <= self.material_pages@.len(),
    {
        assert(self.material_pages@.len() == self.material_pages.len());
        layout::material_pages_bytes(self.material_page_count)
    }

    /// The extents of the model in voxels.
    pub fn size(&self) -> (r: [u32; 3])
        ensures
            r == self.extents(),
    {
        self.size
    }

    /// The handle of the references.
    pub fn material_refs_bindless_handle(&self) -> (r: Option<u32>)
        ensures
            r == self.handles().0,
    {
        self.material_refs_handle
    }

    /// The handle of the pages.
    pub fn material_pages_bindless_handle(&self) -> (r: Option<u32>)
        ensures
            r == self.handles().1,
    {
        self.material_pages_handle
    }

    /// The handle of the parameters.
    pub fn material_params_bindless_handle(&self) -> (r: Option<u32>)
        ensures
            r == self.handles().2,
    {
        self.material_params_handle
    }

    /// The material references.
    pub fn material_refs(&self) -> (r: &[u32])
        ensures
            r@ == self.refs(),
    {
        self.material_refs.as_slice()
    }

    /// The material references, to be written.
    pub fn material_refs_mut(&mut self) -> (r: &mut [u32])
        ensures
            r@ == old(self).refs(),
            final(self).refs() == final(r)@,
            final(self).same_otherwise(old(self)),
            final(self).extents() == old(self).extents(),
            final(self).params() == old(self).params(),
            final(self).handles() == old(self).handles(),
            final(self).page_count() == old(self).page_count(),
            final(self).moved() == old(self).moved(),
            pages_kept(*old(self), *final(self)),
            final(self).storage_whole() == old(self).storage_whole(),
            forall|p: int| #[trigger] final(self).page(p) == old(self).page(p),
    {
        self.material_refs.as_mut_slice()
    }

    /// The number of pages in use.
    pub fn material_page_count(&self) -> (r: usize)
        ensures
            r == self.page_count(),
    {
        self.material_page_count
    }

    /// The parameters of the materials.
    pub fn material_params(&self) -> (r: &[DenseMaterialParam])
        ensures
            r@ == self.params(),
    {
        self.material_params.as_slice()
    }

    /// Whether the pages have been given new storage since their handle was last set.
    pub fn material_pages_moved(&self) -> (r: bool)
        ensures
            r == self.moved(),
    {
        self.material_pages_moved
    }

    /// Replaces the parameters of the materials.
    pub fn set_material_params(&mut self, entries: &[DenseMaterialParam; 256])
        requires
            old(self).wf(),
        ensures
            final(self).wf(),
            final(self).params() == entries@,
            final(self).extents() == old(self).extents(),
            final(self).handles() == old(self).handles(),
            final(self).refs() == old(self).refs(),
            pages_kept(*old(self), *final(self)),
            forall|p: int| #[trigger] final(self).page(p) == old(self).page(p),
    {
        let mut params: Vec<DenseMaterialParam> = Vec::new();
        let mut i: usize = 0;
        while i < 256
            invariant
                i <= 256,
                params@ == entries@.subrange(0, i as int),
            decreases 256 - i,
        {
            params.push(entries[i]);
            i += 1;
            assert(params@ =~= entries@.subrange(0, i as int));
        }
        self.material_params = params;
        assert(params@ =~= entries@);
    }

    /// Keeps the given handles of the references, the pages and the parameters, where there are
    /// none.
    pub fn register_bindless(
        &mut self,
        refs_handle: Option<u32>,
        pages_handle: Option<u32>,
        params_handle: Option<u32>,
    )
        requires
            old(self).wf(),
        ensures
            final(self).wf(),
            old(self).handles().0 is Some ==> final(self).handles().0 == old(self).handles().0,
            old(self).handles().1 is Some ==> final(self).handles().1 == old(self).handles().1,
            old(self).handles().2 is Some ==> final(self).handles().2 == old(self).handles().2,
            old(self).handles().0 is None ==> final(self).handles().0 == refs_handle,
            old(self).handles().1 is None ==> final(self).handles().1 == pages_handle,
            old(self).handles().2 is None ==> final(self).handles().2 == params_handle,
            final(self).handles().0 == first_handle(old(self).handles().0, refs_handle),
            final(self).handles().1 == first_handle(old(self).handles().1, pages_handle),
            final(self).handles().2 == first_handle(old(self).handles().2, params_handle),
            final(self).extents() == old(self).extents(),
            final(self).params() == old(self).params(),
            final(self).refs() == old(self).refs(),
            pages_kept(*old(self), *final(self)),
            forall|p: int| #[trigger] final(self).page(p) == old(self).page(p),
    {
        if self.material_refs_handle.is_none() {
            self.material_refs_handle = refs_handle;
        }
        if self.material_pages_handle.is_none() {
            self.material_pages_handle = pages_handle;
        }
        if self.material_params_handle.is_none() {
            self.material_params_handle = params_handle;
        }
    }

    /// Sets the handle of pages that have been given new storage.
    pub fn rebind_material_pages(&mut self, pages_handle: u32)
        requires
            old(self).wf(),
        ensures
            final(self).wf(),
            final(self).handles() == (
                old(self).handles().0,
                Some(pages_handle),
                old(self).handles().2,
            ),
            !final(self).moved(),
            final(self).extents() == old(self).extents(),
            final(self).params() == old(self).params(),
            final(self).refs() == old(self).refs(),
            final(self).page_count() == old(self).page_count(),
            final(self).page_capacity() == old(self).page_capacity(),
            forall|p: int| #[trigger] final(self).page(p) == old(self).page(p),
    {
        self.material_pages_handle = Some(pages_handle);
        self.material_pages_moved = false;
    }

    /// Gives the voxel at `coords` a material, and occupies it.
    pub fn set_voxel(&mut self, geometry: &mut DenseVoxelGeometry, coords: [u32; 3], material: u8)
        requires
            old(self).wf(),
            old(geometry).wf(),
            old(self).extents() == old(geometry).extents(),
            layout::in_bounds(coords, old(self).extents()),
            old(self).can_write(coords, material),
        ensures
            final(self).wf(),
            final(geometry).wf(),
            final(geometry).extents() == old(geometry).extents(),
            final(geometry).handle() == old(geometry).handle(),
            geometry::words_updated(
                old(geometry).words(),
                final(geometry).words(),
                layout::block_of(coords, old(self).extents()),
                layout::local_of(coords),
                true,
            ),
            voxel_written(*old(self), *final(self), coords, material),
            final(self).extents() == old(self).extents(),
            final(self).params() == old(self).params(),
            final(self).handles() == old(self).handles(),
    {
        let index: VoxelIndex = layout::voxel_index(coords, self.size);
        geometry.set_occupied(coords);
        let material_ref: u32 = self.material_refs[index.block_index];
        if material_ref == layout::EMPTY_MATERIAL_REF {
            self.material_refs[index.block_index] = material as u32;
            assert forall|p: int| 0 <= p < old(self).page_count() implies #[trigger] self.page(p)
                == old(self).page(p) by {
                assert(self.page(p) =~= old(self).page(p));
            }
            return;
        }
        if layout::is_uniform_material_ref(material_ref) {
            let uniform: u8 = layout::uniform_material(material_ref);
            if uniform == material {
                return;
            }
            let mut page: [u8; 64] = [uniform; 64];
            page[index.local_index as usize] = material;
            let page_index: usize = self.push_material_page(page);
            let ghost pushed = *self;
            self.material_refs[index.block_index] = layout::page_material_ref(page_index);
            proof {
                assert forall|p: int| 0 <= p < old(self).page_count() + 1 implies #[trigger] self.page(
                    p,
                ) == pushed.page(p) by {
                    assert(self.page(p) =~= pushed.page(p));
                }
                assert(self.page(page_index as int) =~= Seq::new(
                    64,
                    |i: int|
                        if i == index.local_index {
                            material
                        } else {
                            uniform
                        },
                ));
            }
            return;
        }
        let page_index: usize = layout::material_page_index(material_ref);
        let page: &mut [u8; 64] = self.material_page_mut(page_index);
        page[index.local_index as usize] = material;
    }

    /// Drops the reference of the block of the voxel at `coords`, where the block has no voxels.
    pub fn clear_voxel(&mut self, geometry: &DenseVoxelGeometry, coords: [u32; 3])
        requires
            old(self).wf(),
            geometry.wf(),
            old(self).extents() == geometry.extents(),
            layout::in_bounds(coords, old(self).extents()),
        ensures
            final(self).wf(),
            final(self).same_otherwise(old(self)),
            pages_kept(*old(self), *final(self)),
            forall|p: int|
                0 <= p < old(self).page_count() ==> #[trigger] final(self).page(p) == old(self).page(
                    p,
                ),
            final(self).refs() == reference_dropped(
                old(self).refs(),
                geometry.words(),
                layout::block_of(coords, old(self).extents()),
            ),
    {
        let index: VoxelIndex = layout::voxel_index(coords, self.size);
        if geometry.block_occupancy(index.block_index) == 0 {
            self.material_refs[index.block_index] = layout::EMPTY_MATERIAL_REF;
            assert forall|p: int| 0 <= p < old(self).page_count() implies #[trigger] self.page(p)
                == old(self).page(p) by {
                assert(self.page(p) =~= old(self).page(p));
            }
        }
    }

    /// The material of the voxel at `coords`, where it is occupied.
    pub fn material(&self, geometry: &DenseVoxelGeometry, coords: [u32; 3]) -> (r: Option<u8>)
        requires
            self.wf(),
            geometry.wf(),
            self.extents() == geometry.extents(),
            layout::in_bounds(coords, self.extents()),
            geometry.occupied(coords) ==> self.resolves(layout::block_of(coords, self.extents())),
        ensures
            r == self.material_at(geometry, coords),
    {
        let index: VoxelIndex = layout::voxel_index(coords, self.size);
        let word: u64 = geometry.block_occupancy(index.block_index);
        proof {
            bits::lemma_bit64_test(word, index.local_index as u64);
        }
        if ((word >> (index.local_index as u64)) & 1) == 0 {
            return None;
        }
        let material_ref: u32 = self.material_refs[index.block_index];
        if layout::is_uniform_material_ref(material_ref) {
            return Some(layout::uniform_material(material_ref));
        }
        let pages: &[[u8; 64]] = self.material_pages();
        let page_index: usize = layout::material_page_index(material_ref);
        assert(pages@[page_index as int]@ == self.page(page_index as int));
        Some(pages[page_index][index.local_index as usize])
    }

    /// Keeps a page for each block whose voxels have more than one material, and for no other.
    pub fn rebuild_material_pages(&mut self, geometry: &DenseVoxelGeometry)
        requires
            old(self).wf(),
            geometry.wf(),
            old(self).extents() == geometry.extents(),
            old(self).resolves_occupied(geometry),
        ensures
            final(self).wf(),
            pages_rebuilt(geometry.words(), *old(self), *final(self)),
            final(self).extents() == old(self).extents(),
            final(self).params() == old(self).params(),
            final(self).handles() == old(self).handles(),
    {
        let ghost words = geometry.words();
        let ghost before = *self;
        proof {
            layout::lemma_block_count_bound(self.size);
        }
        let blocks: usize = self.material_refs.len();
        let old_pages: &[[u8; 64]] = self.material_pages();
        let mut new_pages: Vec<[u8; 64]> = Vec::new();
        let mut refs: Vec<u32> = Vec::new();
        let mut block: usize = 0;
        while block < blocks
            invariant
                block <= blocks,
                blocks <= 262144,
                blocks == before.refs().len(),
                before.wf(),
                *self == before,
                words == geometry.words(),
                words.len() == blocks,
                before.resolves_occupied(geometry),
                old_pages@.len() == before.page_count(),
                forall|p: int| 0 <= p < old_pages@.len() ==> #[trigger] old_pages@[p]@ == before.page(p),
                refs@.len() == block,
                forall|b: int| 0 <= b < block ==> rebuilt_ref(words, before, b, #[trigger] refs@[b]),
                new_pages@.len() == pages_before(words, before, block as nat),
                new_pages@.len() <= block,
                forall|b: int|
                    0 <= b < block && #[trigger] needs_page(words, before, b) ==> pages_before(
                        words,
                        before,
                        b as nat,
                    ) < new_pages@.len() && new_pages@[pages_before(words, before, b as nat) as int]@
                        == before.page(layout::page_of(before.refs()[b])),
            decreases blocks - block,
        {
            let occupancy: u64 = geometry.block_occupancy(block);
            let material_ref: u32 = self.material_refs[block];
            if occupancy == 0 {
                refs.push(layout::EMPTY_MATERIAL_REF);
            } else if layout::is_uniform_material_ref(material_ref) {
                refs.push(material_ref);
            } else {
                assert(before.resolves(block as int));
                let old_page: [u8; 64] = old_pages[layout::material_page_index(material_ref)];
                assert(old_page@ == before.page(layout::page_of(material_ref)));
                match uniform_material_for_occupied_voxels(occupancy, &old_page) {
                    Some(material) => {
                        assert(single_material(occupancy, old_page@, material));
                        refs.push(material as u32);
                    },
                    None => {
                        let new_page_index: usize = new_pages.len();
                        new_pages.push(old_page);
                        refs.push(layout::page_material_ref(new_page_index));
                        assert(needs_page(words, before, block as int));
                    },
                }
            }
            assert forall|b: int| 0 <= b < block + 1 implies rebuilt_ref(
                words,
                before,
                b,
                #[trigger] refs@[b],
            ) by {}
            block += 1;
        }
        self.replace_material_pages(new_pages.as_slice());
        let ghost replaced = *self;
        self.material_refs = refs;
        assert forall|p: int| 0 <= p < new_pages@.len() implies #[trigger] self.page(p)
            == new_pages@[p]@ by {
            assert(self.page(p) =~= replaced.page(p));
        }
    }

    /// Borrows the materials on a page, to be written.
    fn material_page_mut(&mut self, page_index: usize) -> (r: &mut [u8; 64])
        requires
            old(self).wf(),
            page_index < old(self).page_count(),
        ensures
            r@ == old(self).page(page_index as int),
            final(self).same_otherwise(old(self)),
            final(self).refs() == old(self).refs(),
            final(self).page_count() == old(self).page_count(),
            final(self).page_capacity() == old(self).page_capacity(),
            final(self).storage_whole(),
            final(self).moved() == old(self).moved(),
            final(self).page(page_index as int) == final(r)@,
            forall|p: int|
                0 <= p < old(self).page_count() && p != page_index ==> #[trigger] final(self).page(p)
                    == old(self).page(p),
    {
        assert(self.material_pages@.len() == self.material_pages.len());
        let start: usize = page_index * layout::MATERIAL_PAGE_SIZE;
        let (_, tail): (&mut [u8], &mut [u8]) = self.material_pages.as_mut_slice().split_at_mut(
            start,
        );
        let (page, _): (&mut [u8], &mut [u8]) = tail.split_at_mut(layout::MATERIAL_PAGE_SIZE);
        bytes::page_of_bytes_mut(page)
    }

    /// Makes room for `required` pages.
    fn reserve_material_pages(&mut self, required: usize)
        requires
            old(self).wf(),
            required * 128 <= usize::MAX,
        ensures
            final(self).wf(),
            final(self).same_otherwise(old(self)),
            final(self).refs() == old(self).refs(),
            final(self).page_count() == old(self).page_count(),
            final(self).page_capacity() == reserved(old(self).page_capacity(), required as nat),
            required <= final(self).page_capacity(),
            forall|p: int|
                0 <= p < old(self).page_count() ==> #[trigger] final(self).page(p) == old(self).page(
                    p,
                ),
            final(self).moved() == (old(self).moved() || (old(self).handles().1 is Some && required
                > old(self).page_capacity())),
    {
        if required <= self.material_pages_capacity() {
            return;
        }
        let grown: usize = layout::next_power_of_two(required);
        let new_capacity: usize = if grown < layout::INITIAL_MATERIAL_PAGE_CAPACITY {
            layout::INITIAL_MATERIAL_PAGE_CAPACITY
        } else {
            grown
        };
        let used_bytes: usize = self.material_pages_len_bytes();
        let new_bytes: usize = layout::material_pages_bytes(new_capacity);
        self.material_pages.truncate(used_bytes);
        let ghost kept = self.material_pages@;
        self.material_pages.resize(new_bytes, 0);
        if self.material_pages_handle.is_some() {
            self.material_pages_moved = true;
        }
        assert forall|p: int| 0 <= p < old(self).page_count() implies #[trigger] self.page(p)
            == old(self).page(p) by {
            assert forall|i: int| 0 <= i < 64 implies self.page(p)[i] == old(self).page(p)[i] by {
                assert(kept[p * 64 + i] == self.material_pages@.subrange(0, kept.len() as int)[p
                    * 64 + i]);
            }
            assert(self.page(p) =~= old(self).page(p));
        }
    }

    /// Adds a page, and returns its index.
    fn push_material_page(&mut self, page: [u8; 64]) -> (r: usize)
        requires
            old(self).wf(),
            old(self).page_count() <= layout::MATERIAL_PAGE_MASK,
            (old(self).page_count() + 1) * 128 <= usize::MAX,
        ensures
            final(self).wf(),
            final(self).same_otherwise(old(self)),
            final(self).refs() == old(self).refs(),
            r == old(self).page_count(),
            final(self).page_count() == old(self).page_count() + 1,
            final(self).page_capacity() == reserved(
                old(self).page_capacity(),
                (old(self).page_count() + 1) as nat,
            ),
            final(self).page(r as int) == page@,
            forall|p: int|
                0 <= p < old(self).page_count() ==> #[trigger] final(self).page(p) == old(self).page(
                    p,
                ),
            final(self).moved() == (old(self).moved() || (old(self).handles().1 is Some
                && old(self).page_count() + 1 > old(self).page_capacity())),
    {
        let page_index: usize = self.material_page_count;
        self.reserve_material_pages(page_index + 1);
        assert(self.material_pages@.len() == self.material_pages.len());
        let start: usize = page_index * layout::MATERIAL_PAGE_SIZE;
        let ghost reserved_self = *self;
        let ghost before = self.material_pages@;
        let mut i: usize = 0;
        while i < 64
            invariant
                i <= 64,
                start == page_index * 64,
                start + 64 <= before.len(),
                self.material_pages@.len() == before.len(),
                forall|k: int| 0 <= k < start ==> self.material_pages@[k] == before[k],
                forall|k: int| 0 <= k < i ==> self.material_pages@[start + k] == page@[k],
                self.size == old(self).size,
                self.material_refs@ == old(self).material_refs@,
                self.material_page_count == old(self).material_page_count,
                self.material_params@ == old(self).material_params@,
                self.handles() == old(self).handles(),
                self.moved() == (old(self).moved() || (old(self).handles().1 is Some
                    && old(self).page_count() + 1 > old(self).page_capacity())),
            decreases 64 - i,
        {
            self.material_pages[start + i] = page[i];
            i += 1;
        }
        self.material_page_count = page_index + 1;
        assert(self.page(page_index as int) =~= page@);
        assert forall|p: int| 0 <= p < old(self).page_count() implies #[trigger] self.page(p)
            == old(self).page(p) by {
            assert(self.page(p) =~= reserved_self.page(p));
        }
        page_index
    }

    /// Makes `pages` the pages in use.
    fn replace_material_pages(&mut self, pages: &[[u8; 64]])
        requires
            old(self).wf(),
            pages@.len() * 128 <= usize::MAX,
        ensures
            final(self).wf(),
            final(self).same_otherwise(old(self)),
            final(self).refs() == old(self).refs(),
            final(self).page_count() == pages@.len(),
            final(self).page_capacity() == reserved(old(self).page_capacity(), pages@.len()),
            forall|p: int|
                0 <= p < pages@.len() ==> #[trigger] final(self).page(p) == pages@[p]@,
            final(self).moved() == (old(self).moved() || (old(self).handles().1 is Some
                && pages@.len() > old(self).page_capacity())),
    {
        self.reserve_material_pages(pages.len());
        let ghost capacity = self.material_pages@.len();
        let source: &[u8] = bytes::bytes_of_pages(pages);
        let len: usize = layout::material_pages_bytes(pages.len());
        let mut k: usize = 0;
        while k < len
            invariant
                k <= len,
                len == source@.len(),
                len <= capacity,
                self.material_pages@.len() == capacity,
                forall|j: int| 0 <= j < k ==> self.material_pages@[j] == source@[j],
                self.size == old(self).size,
                self.material_refs@ == old(self).material_refs@,
                self.material_params@ == old(self).material_params@,
                self.handles() == old(self).handles(),
                self.moved() == (old(self).moved() || (old(self).handles().1 is Some && pages@.len()
                    > old(self).page_capacity())),
            decreases len - k,
        {
            self.material_pages[k] = source[k];
            k += 1;
        }
        self.material_page_count = pages.len();
        assert forall|p: int| 0 <= p < pages@.len() implies #[trigger] self.page(p)
            == pages@[p]@ by {
            assert forall|i: int| 0 <= i < 64 implies self.page(p)[i] == pages@[p]@[i] by {
                assert(source@[p * 64 + i] == pages@[(p * 64 + i) / 64]@[(p * 64 + i) % 64]);
            }
            assert(self.page(p) =~= pages@[p]@);
        }
    }
}

/// The material of the occupied voxels of a block, where there are some and they have one.
pub fn uniform_material_for_occupied_voxels(occupancy: u64, page: &[u8; 64]) -> (r: Option<u8>)
    ensures
        match r {
            Some(material) => occupancy != 0 && single_material(occupancy, page@, material),
            None => occupancy == 0 || mixed(occupancy, page@),
        },
{
    proof {
        vstd::std_specs::bits::axiom_u64_trailing_zeros(occupancy);
    }
    let first: u32 = occupancy.trailing_zeros();
    if first >= 64 {
        return None;
    }
    proof {
        bits::lemma_bit64_test(occupancy, first as u64);
        bits::lemma_bit64_drop_lowest(occupancy, first as u64);
    }
    let material: u8 = page[first as usize];
    let mut remaining: u64 = occupancy & !(1u64 << (first as u64));
    proof {
        assert forall|i: u64| i < 64 implies #[trigger] bits::bit64(remaining, i) == (i != first
            && bits::bit64(occupancy, i)) by {
            bits::lemma_bit64_and_not(occupancy, first as u64, i);
        }
    }
    while remaining != 0
        invariant
            first < 64,
            bits::bit64(occupancy, first as u64),
            material == page@[first as int],
            forall|i: u64| i < 64 && #[trigger] bits::bit64(remaining, i) ==> bits::bit64(occupancy, i),
            forall|i: u64|
                i < 64 && #[trigger] bits::bit64(occupancy, i) ==> bits::bit64(remaining, i)
                    || page@[i as int] == material,
        decreases remaining,
    {
        proof {
            vstd::std_specs::bits::axiom_u64_trailing_zeros(remaining);
            bits::lemma_bit64_drop_lowest(remaining, 0);
            bits::lemma_bit64_drop_less(remaining);
        }
        let bit: u32 = remaining.trailing_zeros();
        if page[bit as usize] != material {
            proof {
                assert(bits::bit64(remaining, bit as u64));
                assert forall|m: u8| !#[trigger] single_material(occupancy, page@, m) by {
                    assert(page@[bit as int] != m || page@[first as int] != m);
                }
            }
            return None;
        }
        proof {
            assert forall|i: u64| i < 64 implies #[trigger] bits::bit64(
                remaining & ((remaining - 1) as u64),
                i,
            ) == (i != bit && bits::bit64(remaining, i)) by {
                bits::lemma_bit64_drop_lowest(remaining, i);
            }
        }
        remaining = remaining & (remaining - 1);
    }
    proof {
        assert forall|i: u64| i < 64 && #[trigger] bits::bit64(occupancy, i) implies page@[i as int]
            == material by {
            bits::lemma_bit64_zero(i);
        }
        bits::lemma_bit64_zero(first as u64);
    }
    Some(material)
}

/// A page is added just where a voxel gets a second material in its block, and holds the first for
/// every other voxel. A block without a reference refers to its first material, and the references
/// of other blocks stay.
pub proof fn law_page_for_second_material(
    before: DenseVoxelMaterial,
    after: DenseVoxelMaterial,
    coords: [u32; 3],
    material: u8,
    other: int,
)
    requires
        before.wf(),
        after.wf(),
        layout::in_bounds(coords, before.extents()),
        voxel_written(before, after, coords, material),
        before.page_count() < 0x7fff_ffff,
        0 <= other < 64,
    ensures
        ({
            let size = before.extents()@;
            let x = coords@[0] as int;
            let y = coords@[1] as int;
            let z = coords@[2] as int;
            let across = (size[0] + 3) / 4;
            let block = x / 4 + y / 4 * across + z / 4 * across * ((size[1] + 3) / 4);
            let local = x % 4 + y % 4 * 4 + z % 4 * 16;
            let known = before.refs()[block];
            let second = known < 0x8000_0000 && known % 256 != material;
            &&& after.page_count() == before.page_count() + (if second {
                1int
            } else {
                0
            })
            &&& after.moved() <==> before.moved() || (second && before.handles().1 is Some
                && before.page_count() + 1 > before.page_capacity())
            &&& known == 0xffff_ffff ==> after.refs()[block] == material
            &&& known != 0xffff_ffff && !second ==> after.refs()[block] == known
            &&& second ==> {
                &&& after.refs()[block] == 0x8000_0000 + before.page_count()
                &&& after.page(before.page_count() as int)[local] == material
                &&& other != local ==> after.page(before.page_count() as int)[other] == known % 256
            }
            &&& forall|b: int|
                0 <= b < before.refs().len() && b != block ==> #[trigger] after.refs()[b]
                    == before.refs()[b]
        }),
{
    layout::lemma_block_of_bound(coords, before.extents());
}

/// A reference is dropped just where its block has no voxels left.
pub proof fn law_reference_dropped(refs: Seq<u32>, words: Seq<u64>, block: int, other: int)
    requires
        0 <= block < refs.len(),
        0 <= other < refs.len(),
    ensures
        other == block && words[block] == 0 ==> reference_dropped(refs, words, block)[other]
            == 0xffff_ffff,
        other != block || words[block] != 0 ==> reference_dropped(refs, words, block)[other]
            == refs[other],
{
}

/// Rebuilding pages leaves a page just to each block whose voxels have two materials, counted from
/// zero in the order of the blocks. A block whose voxels have one material refers to it, and a block
/// without voxels to none.
pub proof fn law_rebuilt_references(
    words: Seq<u64>,
    before: DenseVoxelMaterial,
    after: DenseVoxelMaterial,
    b: int,
    i: u64,
    j: u64,
)
    requires
        before.wf(),
        after.wf(),
        pages_rebuilt(words, before, after),
        0 <= b < before.refs().len(),
        before.page_count() <= 0x7fff_ffff,
        words[b] != 0 ==> before.resolves(b),
        i < 64,
        j < 64,
    ensures
        ({
            let known = before.refs()[b];
            let page = before.page(known - 0x8000_0000);
            let occupied = (words[b] >> i) & 1 == 1 && (words[b] >> j) & 1 == 1;
            &&& words[b] == 0 ==> after.refs()[b] == 0xffff_ffff
            &&& words[b] != 0 && known < 0x8000_0000 ==> after.refs()[b] == known
            &&& known >= 0x8000_0000 && occupied && page[i as int] != page[j as int]
                ==> after.refs()[b] >= 0x8000_0000 && after.page(after.refs()[b] - 0x8000_0000)
                == page
            &&& known >= 0x8000_0000 && occupied && after.refs()[b] < 0x8000_0000
                ==> after.refs()[b] == page[i as int] && after.refs()[b] == page[j as int]
        }),
{
    assert(rebuilt_ref(words, before, b, after.refs()[b]));
    layout::lemma_block_count_bound(before.extents());
    lemma_pages_before(words, before, 0, b as nat);
    lemma_pages_before(words, before, b as nat, before.refs().len());
    bits::lemma_bit64_zero(i);
    let known = before.refs()[b];
    let page = before.page(known - 0x8000_0000);
    if known >= 0x8000_0000 && bits::bit64(words[b], i) && bits::bit64(words[b], j) {
        assert(needs_page(words, before, b) || !needs_page(words, before, b));
        if page[i as int] != page[j as int] {
            assert forall|m: u8| !#[trigger] single_material(words[b], page, m) by {
                assert(page[i as int] != m || page[j as int] != m);
            }
            assert(needs_page(words, before, b));
        }
    }
}

/// Rebuilding pages takes its page from a block whose voxels have one material: it then refers to
/// the material.
pub proof fn law_one_material_needs_no_page(
    words: Seq<u64>,
    before: DenseVoxelMaterial,
    after: DenseVoxelMaterial,
    b: int,
    material: u8,
)
    requires
        before.wf(),
        after.wf(),
        pages_rebuilt(words, before, after),
        0 <= b < before.refs().len(),
        words[b] != 0,
        before.resolves(b),
        before.refs()[b] >= 0x8000_0000,
        forall|i: u64|
            i < 64 && (#[trigger] (words[b] >> i)) & 1 == 1 ==> before.page(
                before.refs()[b] - 0x8000_0000,
            )[i as int] == material,
    ensures
        after.refs()[b] == material,
{
    let page = before.page(before.refs()[b] - 0x8000_0000);
    assert(rebuilt_ref(words, before, b, after.refs()[b]));
    assert forall|i: u64| i < 64 && #[trigger] bits::bit64(words[b], i) implies page[i as int]
        == material by {
        assert((words[b] >> i) & 1 == 1);
    }
    assert(single_material(words[b], page, material));
    vstd::std_specs::bits::axiom_u64_trailing_zeros(words[b]);
    bits::lemma_bit64_drop_lowest(words[b], 0);
    let first = words[b].trailing_zeros() as u64;
    assert(bits::bit64(words[b], first));
    assert(single_material(words[b], page, after.refs()[b] as u8) ==> page[first as int]
        == after.refs()[b] as u8);
}

/// Once the pages have been rebuilt, every page in use is that of a block. Told is the block.
pub proof fn law_no_page_is_unused(
    words: Seq<u64>,
    before: DenseVoxelMaterial,
    after: DenseVoxelMaterial,
    page: int,
) -> (block: int)
    requires
        before.wf(),
        after.wf(),
        pages_rebuilt(words, before, after),
        0 <= page < after.page_count(),
        forall|b: int|
            0 <= b < before.refs().len() && #[trigger] words[b] != 0 ==> before.resolves(b),
    ensures
        0 <= block < after.refs().len(),
        after.refs()[block] == 0x8000_0000 + page,
{
    let block = lemma_block_of_page(words, before, before.refs().len(), page);
    assert(rebuilt_ref(words, before, block, after.refs()[block]));
    block
}

proof fn lemma_block_of_page(
    words: Seq<u64>,
    material: DenseVoxelMaterial,
    n: nat,
    page: int,
) -> (block: int)
    requires
        0 <= page < pages_before(words, material, n),
    ensures
        0 <= block < n,
        needs_page(words, material, block),
        pages_before(words, material, block as nat) == page,
    decreases n,
{
    if page < pages_before(words, material, (n - 1) as nat) {
        lemma_block_of_page(words, material, (n - 1) as nat, page)
    } else {
        n - 1
    }
}

/// There is always enough room for pages, and room is only ever added: to a power of two pages, not
/// below what a new material table has.
pub proof fn law_room_for_pages(capacity: nat, required: nat)
    ensures
        required <= reserved(capacity, required),
        capacity <= reserved(capacity, required),
        required <= capacity ==> reserved(capacity, required) == capacity,
        required > capacity ==> reserved(capacity, required) >= 16,
        capacity < required <= 16 ==> reserved(capacity, required) == 16,
        required > 16 ==> reserved(capacity, required) == capacity || reserved(capacity, required) < 2
            * required,
{
    layout::lemma_power_of_two_from(1, required);
    let k = layout::law_power_of_two(required);
    vstd::arithmetic::power2::lemma2_to64();
    if required <= 16 && k > 4 {
        if k > 5 {
            vstd::arithmetic::power2::lemma_pow2_strictly_increases(4, (k - 1) as nat);
        }
    }
    if k < 4 {
        vstd::arithmetic::power2::lemma_pow2_strictly_increases(k, 4);
    }
}

} // verus!
