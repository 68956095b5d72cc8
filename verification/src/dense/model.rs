//! A dense model as a whole: its geometry together with its materials.

use super::geometry;
use super::geometry::DenseVoxelGeometry;
use super::layout;
use super::material;
use super::material::DenseVoxelMaterial;
use crate::math::UVec3;
use vstd::prelude::*;

verus! {

/// A dense model in a scene: the identities of its geometry and materials, and the part of it
/// that is shown.
#[derive(Clone, Copy, Debug, PartialEq, Eq)]
pub struct DenseVoxelModel {
    pub size: [u32; 3],
    pub occupancy: u64,
    pub material: u64,
    pub cull_min: UVec3,
    pub cull_max: UVec3,
}

/// What a shader reads of a dense model.
#[derive(Clone, Copy, Debug, PartialEq, Eq)]
pub struct DenseVoxelGpu {
    pub size: [u32; 4],
    pub occupancy_handle: u32,
    pub material_refs_handle: u32,
    pub material_pages_handle: u32,
    pub material_params_handle: u32,
}

impl Default for DenseVoxelGpu {
    fn default() -> (r: DenseVoxelGpu)
        ensures
            r.size@ == seq![0u32, 0, 0, 0],
            r.occupancy_handle == 0,
            r.material_refs_handle == 0,
            r.material_pages_handle == 0,
            r.material_params_handle == 0,
    {
        DenseVoxelGpu {
            size: [0, 0, 0, 0],
            occupancy_handle: 0,
            material_refs_handle: 0,
            material_pages_handle: 0,
            material_params_handle: 0,
        }
    }
}

impl DenseVoxelModel {
    /// A model that is shown whole.
    pub fn new(occupancy: u64, material: u64, size: [u32; 3]) -> (r: DenseVoxelModel)
        ensures
            r.size == size,
            r.occupancy == occupancy,
            r.material == material,
            r.cull_min == (UVec3 { x: 0, y: 0, z: 0 }),
            r.cull_max == (UVec3 { x: size@[0], y: size@[1], z: size@[2] }),
    {
        DenseVoxelModel {
            size,
            occupancy,
            material,
            cull_min: UVec3::new(0, 0, 0),
            cull_max: UVec3::new(size[0], size[1], size[2]),
        }
    }

    /// What a shader reads of a model, once every part of it has a handle.
    pub fn gpu_descriptor(
        geometry: &DenseVoxelGeometry,
        material: &DenseVoxelMaterial,
    ) -> (r: Option<DenseVoxelGpu>)
        requires
            geometry.extents() == material.extents(),
        ensures
            r is Some <==> geometry.handle() is Some && material.handles().0 is Some
                && material.handles().1 is Some && material.handles().2 is Some,
            r matches Some(gpu) ==> {
                &&& gpu.size@ == geometry.extents()@.push(material.page_count() as u32)
                &&& Some(gpu.occupancy_handle) == geometry.handle()
                &&& Some(gpu.material_refs_handle) == material.handles().0
                &&& Some(gpu.material_pages_handle) == material.handles().1
                &&& Some(gpu.material_params_handle) == material.handles().2
            },
    {
        let size: [u32; 3] = geometry.size();
        let gpu_size: [u32; 4] = [
            size[0],
            size[1],
            size[2],
            material.material_page_count() as u32,
        ];
        assert(gpu_size@ =~= size@.push(material.page_count() as u32));
        match (
            geometry.occupancy_bindless_handle(),
            material.material_refs_bindless_handle(),
            material.material_pages_bindless_handle(),
            material.material_params_bindless_handle(),
        ) {
            (Some(occupancy), Some(refs), Some(pages), Some(params)) => Some(
                DenseVoxelGpu {
                    size: gpu_size,
                    occupancy_handle: occupancy,
                    material_refs_handle: refs,
                    material_pages_handle: pages,
                    material_params_handle: params,
                },
            ),
            _ => None,
        }
    }

    /// Gives the voxel at `coords` a material, and occupies it.
    pub fn set_voxel(
        geometry: &mut DenseVoxelGeometry,
        material: &mut DenseVoxelMaterial,
        coords: [u32; 3],
        material_id: u8,
    )
        requires
            old(material).wf(),
            old(geometry).wf(),
            old(material).extents() == old(geometry).extents(),
            layout::in_bounds(coords, old(material).extents()),
            old(material).can_write(coords, material_id),
        ensures
            final(material).wf(),
            final(geometry).wf(),
            final(geometry).extents() == old(geometry).extents(),
            final(geometry).handle() == old(geometry).handle(),
            geometry::words_updated(
                old(geometry).words(),
                final(geometry).words(),
                layout::block_of(coords, old(material).extents()),
                layout::local_of(coords),
                true,
            ),
            material::voxel_written(*old(material), *final(material), coords, material_id),
    {
        material.set_voxel(geometry, coords, material_id);
    }

    /// Frees the voxel at `coords`.
    pub fn clear_voxel(
        geometry: &mut DenseVoxelGeometry,
        material: &mut DenseVoxelMaterial,
        coords: [u32; 3],
    )
        requires
            old(material).wf(),
            old(geometry).wf(),
            old(material).extents() == old(geometry).extents(),
            layout::in_bounds(coords, old(material).extents()),
        ensures
            final(material).wf(),
            final(geometry).wf(),
            final(geometry).extents() == old(geometry).extents(),
            final(geometry).handle() == old(geometry).handle(),
            voxel_cleared(*old(geometry), *final(geometry), *old(material), *final(material), coords),
    {
        geometry.clear_voxel(coords);
        material.clear_voxel(geometry, coords);
    }
}

/// Whether the voxel at `coords` has been freed: its bit is cleared, and the reference of its
/// block is dropped where no voxel is left in the block.
pub open spec fn voxel_cleared(
    g0: DenseVoxelGeometry,
    g1: DenseVoxelGeometry,
    m0: DenseVoxelMaterial,
    m1: DenseVoxelMaterial,
    coords: [u32; 3],
) -> bool {
    let block = layout::block_of(coords, m0.extents());
    &&& geometry::words_updated(g0.words(), g1.words(), block, layout::local_of(coords), false)
    &&& m1.same_otherwise(&m0)
    &&& material::pages_kept(m0, m1)
    &&& forall|p: int| 0 <= p < m0.page_count() ==> #[trigger] m1.page(p) == m0.page(p)
    &&& m1.refs() == material::reference_dropped(m0.refs(), g1.words(), block)
}

/// Whether geometry and materials belong together: they have one size, the materials of all
/// voxels can be told, and no two blocks share a page.
pub open spec fn coherent(geometry: DenseVoxelGeometry, material: DenseVoxelMaterial) -> bool {
    &&& geometry.wf()
    &&& material.wf()
    &&& geometry.extents() == material.extents()
    &&& material.resolves_occupied(&geometry)
    &&& material.pages_owned()
}

/// After a voxel has been given a material, reading it gives that material, and every other voxel
/// reads as before.
pub proof fn law_set_voxel(
    g0: DenseVoxelGeometry,
    g1: DenseVoxelGeometry,
    m0: DenseVoxelMaterial,
    m1: DenseVoxelMaterial,
    coords: [u32; 3],
    material_id: u8,
)
    requires
        coherent(g0, m0),
        g1.wf(),
        m1.wf(),
        g1.extents() == g0.extents(),
        layout::in_bounds(coords, m0.extents()),
        m0.page_count() < layout::MATERIAL_PAGE_MASK,
        geometry::words_updated(
            g0.words(),
            g1.words(),
            layout::block_of(coords, m0.extents()),
            layout::local_of(coords),
            true,
        ),
        material::voxel_written(m0, m1, coords, material_id),
    ensures
        coherent(g1, m1),
        m1.material_at(&g1, coords) == Some(material_id),
        forall|other: [u32; 3]|
            layout::in_bounds(other, m0.extents()) && other != coords ==> #[trigger] m1.material_at(
                &g1,
                other,
            ) == m0.material_at(&g0, other),
{
    let block = layout::block_of(coords, m0.extents());
    layout::lemma_block_of_bound(coords, m0.extents());
    assert forall|b: int| 0 <= b < m1.refs().len() && #[trigger] g1.words()[b] != 0 implies m1.resolves(
        b,
    ) by {
        if b != block {
            assert(g0.words()[b] != 0);
            assert(m0.resolves(b));
        }
    }
    if layout::page_ref(m0.refs()[block]) {
        m0.lemma_page_len(layout::page_of(m0.refs()[block]));
    }
    geometry::law_words_updated_voxels(g0, g1, coords, coords, true);
    assert forall|other: [u32; 3]|
        layout::in_bounds(other, m0.extents()) && other != coords implies #[trigger] m1.material_at(
        &g1,
        other,
    ) == m0.material_at(&g0, other) by {
        let b = layout::block_of(other, m0.extents());
        layout::lemma_block_of_bound(other, m0.extents());
        geometry::law_words_updated_voxels(g0, g1, coords, other, true);
        if g0.occupied(other) {
            crate::bits::lemma_bit64_zero(layout::local_of(other) as u64);
            assert(g0.words()[b] != 0);
            assert(m0.resolves(b));
            if b == block && layout::local_of(other) == layout::local_of(coords) {
                layout::lemma_voxel_unique(coords, other, m0.extents());
            }
        }
    }
}

/// After a voxel has been freed, it has no material, and every other voxel reads as before.
pub proof fn law_clear_voxel(
    g0: DenseVoxelGeometry,
    g1: DenseVoxelGeometry,
    m0: DenseVoxelMaterial,
    m1: DenseVoxelMaterial,
    coords: [u32; 3],
)
    requires
        coherent(g0, m0),
        g1.wf(),
        m1.wf(),
        g1.extents() == g0.extents(),
        layout::in_bounds(coords, m0.extents()),
        voxel_cleared(g0, g1, m0, m1, coords),
    ensures
        coherent(g1, m1),
        m1.material_at(&g1, coords) is None,
        forall|other: [u32; 3]|
            layout::in_bounds(other, m0.extents()) && other != coords ==> #[trigger] m1.material_at(
                &g1,
                other,
            ) == m0.material_at(&g0, other),
{
    let block = layout::block_of(coords, m0.extents());
    layout::lemma_block_of_bound(coords, m0.extents());
    assert forall|b: int| 0 <= b < m1.refs().len() && #[trigger] g1.words()[b] != 0 implies m1.resolves(
        b,
    ) by {
        if b == block {
            crate::bits::lemma_bit64_subset(g0.words()[b], g1.words()[b]);
        }
        assert(g0.words()[b] != 0);
        assert(m0.resolves(b));
    }
    geometry::law_words_updated_voxels(g0, g1, coords, coords, false);
    assert forall|other: [u32; 3]|
        layout::in_bounds(other, m0.extents()) && other != coords implies #[trigger] m1.material_at(
        &g1,
        other,
    ) == m0.material_at(&g0, other) by {
        let b = layout::block_of(other, m0.extents());
        layout::lemma_block_of_bound(other, m0.extents());
        geometry::law_words_updated_voxels(g0, g1, coords, other, false);
        if g0.occupied(other) {
            crate::bits::lemma_bit64_zero(layout::local_of(other) as u64);
            assert(g0.words()[b] != 0);
            assert(g1.words()[b] != 0);
            assert(m0.resolves(b));
        }
    }
}

/// Rebuilding the pages changes the material of no voxel.
pub proof fn law_rebuild_material_pages(
    geometry: DenseVoxelGeometry,
    m0: DenseVoxelMaterial,
    m1: DenseVoxelMaterial,
)
    requires
        geometry.wf(),
        m0.wf(),
        m1.wf(),
        geometry.extents() == m0.extents(),
        m0.resolves_occupied(&geometry),
        material::pages_rebuilt(geometry.words(), m0, m1),
    ensures
        coherent(geometry, m1),
        m1.page_count() <= m1.refs().len(),
        forall|coords: [u32; 3]|
            layout::in_bounds(coords, m0.extents()) ==> #[trigger] m1.material_at(&geometry, coords)
                == m0.material_at(&geometry, coords),
{
    let words = geometry.words();
    layout::lemma_block_count_bound(m0.extents());
    material::lemma_pages_before(words, m0, 0, m0.refs().len());
    assert forall|b: int| 0 <= b < m1.refs().len() implies {
        &&& layout::page_ref(#[trigger] m1.refs()[b]) ==> material::needs_page(words, m0, b)
            && layout::page_of(m1.refs()[b]) == material::pages_before(words, m0, b as nat)
            && layout::page_of(m1.refs()[b]) < m1.page_count()
        &&& words[b] != 0 ==> m1.resolves(b)
    } by {
        material::lemma_pages_before(words, m0, b as nat, m0.refs().len());
        material::lemma_pages_before(words, m0, 0, b as nat);
        assert(material::rebuilt_ref(words, m0, b, m1.refs()[b]));
        if words[b] != 0 {
            assert(m0.resolves(b));
        }
    }
    assert forall|a: int, b: int|
        0 <= a < m1.refs().len() && 0 <= b < m1.refs().len() && a != b && layout::page_ref(
            #[trigger] m1.refs()[a],
        ) && layout::page_ref(#[trigger] m1.refs()[b]) implies m1.refs()[a] != m1.refs()[b] by {
        if a < b {
            material::lemma_pages_before(words, m0, a as nat, b as nat);
        } else {
            material::lemma_pages_before(words, m0, b as nat, a as nat);
        }
    }
    assert forall|b: int| 0 <= b < m1.refs().len() && #[trigger] words[b] != 0 implies m1.resolves(b) by {
        assert(0 <= b < m1.refs().len() && m1.refs()[b] == m1.refs()[b]);
    }
    assert forall|coords: [u32; 3]|
        layout::in_bounds(coords, m0.extents()) implies #[trigger] m1.material_at(&geometry, coords)
        == m0.material_at(&geometry, coords) by {
        let b = layout::block_of(coords, m0.extents());
        let local = layout::local_of(coords) as u64;
        layout::lemma_block_of_bound(coords, m0.extents());
        if geometry.occupied(coords) {
            crate::bits::lemma_bit64_zero(local);
            assert(words[b] != 0);
            assert(m0.resolves(b));
            assert(material::rebuilt_ref(words, m0, b, m1.refs()[b]));
            assert(crate::bits::bit64(words[b], local));
        }
    }
}

/// An empty model has no materials.
pub proof fn law_empty_model(geometry: DenseVoxelGeometry, material: DenseVoxelMaterial, coords: [u32; 3])
    requires
        geometry.wf(),
        material.wf(),
        geometry.extents() == material.extents(),
        layout::in_bounds(coords, material.extents()),
        forall|b: int| 0 <= b < geometry.words().len() ==> geometry.words()[b] == 0,
        forall|b: int|
            0 <= b < material.refs().len() ==> material.refs()[b] == layout::EMPTY_MATERIAL_REF,
    ensures
        coherent(geometry, material),
        material.material_at(&geometry, coords) is None,
{
    layout::lemma_block_of_bound(coords, material.extents());
    crate::bits::lemma_bit64_zero(layout::local_of(coords) as u64);
}

} // verus!
