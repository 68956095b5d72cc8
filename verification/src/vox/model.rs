//! Trees of materials, made of lists of voxels.

use super::file::FileModel;
use super::file::FileVoxel;
use crate::dense::layout;
use crate::math::UVec3;
use crate::vdb::tree;
use crate::vdb::tree::Tree;
use vstd::prelude::*;

verus! {

/// A voxel with a value.
#[derive(Clone, Copy, Debug, PartialEq, Eq, Structural)]
pub struct TreeVoxel {
    pub coords: UVec3,
    pub value: u8,
}

/// Whether every voxel lies in the cube of a tree of materials.
pub open spec fn in_tree(voxels: Seq<TreeVoxel>) -> bool {
    forall|i: int|
        0 <= i < voxels.len() ==> (#[trigger] voxels[i]).coords.x < 256 && voxels[i].coords.y < 256
            && voxels[i].coords.z < 256
}

/// The value of the last of the first `n` voxels that is at `c`, where there is one.
pub open spec fn last_value(voxels: Seq<TreeVoxel>, n: nat, c: UVec3) -> Option<u8>
    decreases n,
{
    if n == 0 {
        None
    } else if voxels[n - 1].coords == c {
        Some(voxels[n - 1].value)
    } else {
        last_value(voxels, (n - 1) as nat, c)
    }
}

/// The levels of a tree of materials: eight cells along each axis of the root and of the nodes below
/// it, and four voxels along each axis of a leaf.
pub open spec fn material_levels() -> Seq<tree::Level> {
    seq![
        tree::Level { fan: 4, cell: 1 },
        tree::Level { fan: 8, cell: 4 },
        tree::Level { fan: 8, cell: 32 },
    ]
}

pub proof fn lemma_material_levels(hierarchy: Seq<u32>)
    requires
        hierarchy == seq![3u32, 3, 2],
    ensures
        tree::hierarchy_ok(hierarchy),
        tree::levels_of(hierarchy) == material_levels(),
{
    vstd::arithmetic::power2::lemma2_to64();
    let h1 = hierarchy.skip(1);
    let h2 = h1.skip(1);
    let h3 = h2.skip(1);
    assert(h1 =~= seq![3u32, 2]);
    assert(h2 =~= seq![2u32]);
    assert(h3.len() == 0);
    assert(tree::bits_of(h3) == 0);
    assert(tree::bits_of(h2) == 2);
    assert(tree::bits_of(h1) == 5);
    assert(tree::bits_of(hierarchy) == 8);
    assert(tree::levels_of(h3) =~= Seq::empty());
    assert(tree::levels_of(h2) =~= seq![tree::Level { fan: 4, cell: 1 }]);
    assert(tree::levels_of(h1) =~= seq![
        tree::Level { fan: 4, cell: 1 },
        tree::Level { fan: 8, cell: 4 },
    ]);
    assert(tree::levels_of(hierarchy) =~= material_levels());
}

/// A tree of materials is a cube of 256 voxels: its root has eight cells along each axis, the nodes
/// of the level below have eight, and the leaves have four voxels.
pub proof fn law_material_levels()
    ensures
        material_levels().len() == 3,
        material_levels()[2].fan == 8,
        material_levels()[2].cell == 32,
        material_levels()[1].fan == 8,
        material_levels()[1].cell == 4,
        material_levels()[0].fan == 4,
        material_levels()[0].cell == 1,
{
}

/// The tree of the values of voxels. Where voxels share a place, the last counts.
pub fn build_tree(voxels: &Vec<TreeVoxel>) -> (r: Tree<u8>)
    requires
        in_tree(voxels@),
        voxels@.len() <= u32::MAX,
    ensures
        r.wf(),
        r.levels() == material_levels(),
        forall|c: UVec3|
            r.covers(c) ==> #[trigger] r.value(c) == last_value(voxels@, voxels@.len(), c),
{
    let hierarchy: [u32; 3] = [3, 3, 2];
    proof {
        assert(hierarchy@ =~= seq![3u32, 3, 2]);
        lemma_material_levels(hierarchy@);
    }
    let slice: &[u32] = hierarchy.as_slice();
    let mut tree: Tree<u8> = Tree::new(slice);
    let mut i: usize = 0;
    while i < voxels.len()
        invariant
            i <= voxels@.len(),
            in_tree(voxels@),
            voxels@.len() <= u32::MAX,
            tree.wf(),
            tree.levels() == material_levels(),
            forall|l: int| 0 <= l < 2 ==> (#[trigger] tree.pools()[l]).len() <= i,
            forall|c: UVec3|
                tree.covers(c) ==> #[trigger] tree.value(c) == last_value(voxels@, i as nat, c),
        decreases voxels@.len() - i,
    {
        let voxel: TreeVoxel = voxels[i];
        assert(tree.levels().last() == tree::Level { fan: 8, cell: 32 });
        let ghost before = tree;
        tree.set_value(voxel.coords, Some(voxel.value));
        assert forall|c: UVec3| tree.covers(c) implies #[trigger] tree.value(c) == last_value(
            voxels@,
            (i + 1) as nat,
            c,
        ) by {
            assert(before.covers(c));
            assert(before.value(c) == last_value(voxels@, i as nat, c));
        }
        assert forall|l: int| 0 <= l < 2 implies (#[trigger] tree.pools()[l]).len() <= i + 1 by {
            assert(before.pools()[l].len() <= i);
        }
        i += 1;
    }
    tree
}

/// Where a voxel of a file stands in a tree: the file's third axis becomes the second, and its
/// second axis, turned around, the third.
pub open spec fn placed(size_y: u32, v: FileVoxel) -> UVec3 {
    UVec3 { x: v.x as u32, y: v.z as u32, z: ((size_y - v.y - 1) % 256) as u32 }
}

/// Whether the voxels of a model can be placed: they lie inside it, and their values can be told.
pub open spec fn placeable(size_y: u32, voxels: Seq<FileVoxel>) -> bool {
    &&& voxels.len() <= u32::MAX
    &&& forall|i: int|
        0 <= i < voxels.len() ==> (#[trigger] voxels[i]).y < size_y && voxels[i].i < 255
}

/// The voxels of a model as voxels of a tree, each with the place of its color plus one.
pub open spec fn tree_voxels(size_y: u32, voxels: Seq<FileVoxel>) -> Seq<TreeVoxel> {
    Seq::new(
        voxels.len(),
        |i: int| TreeVoxel { coords: placed(size_y, voxels[i]), value: (voxels[i].i + 1) as u8 },
    )
}

/// The voxels of a model as voxels of a tree, where they can be placed.
pub fn model_voxels(model: &FileModel) -> (r: Option<Vec<TreeVoxel>>)
    ensures
        r is Some <==> placeable(model.size.y, model.voxels@),
        r is Some <==> model.voxels@.len() <= u32::MAX && forall|i: int|
            0 <= i < model.voxels@.len() ==> (#[trigger] model.voxels@[i]).y < model.size.y
                && model.voxels@[i].i < 255,
        r matches Some(voxels) ==> {
            &&& voxels@ == tree_voxels(model.size.y, model.voxels@)
            &&& in_tree(voxels@)
            &&& voxels@.len() <= u32::MAX
        },
{
    if model.voxels.len() as u64 > u32::MAX as u64 {
        return None;
    }
    let size_y: u32 = model.size.y;
    let mut voxels: Vec<TreeVoxel> = Vec::new();
    let mut i: usize = 0;
    while i < model.voxels.len()
        invariant
            i <= model.voxels@.len(),
            size_y == model.size.y,
            model.voxels@.len() <= u32::MAX,
            forall|k: int|
                0 <= k < i ==> (#[trigger] model.voxels@[k]).y < size_y && model.voxels@[k].i < 255,
            voxels@ == tree_voxels(size_y, model.voxels@.take(i as int)),
        decreases model.voxels@.len() - i,
    {
        let voxel: FileVoxel = model.voxels[i];
        if voxel.y as u32 >= size_y || voxel.i == 255 {
            return None;
        }
        let z: u32 = size_y - voxel.y as u32 - 1;
        proof {
            layout::lemma_low_byte(z);
        }
        voxels.push(
            TreeVoxel {
                coords: UVec3 { x: voxel.x as u32, y: voxel.z as u32, z: (z as u8) as u32 },
                value: voxel.i + 1,
            },
        );
        i += 1;
        assert(voxels@ =~= tree_voxels(size_y, model.voxels@.take(i as int)));
    }
    assert(model.voxels@.take(i as int) =~= model.voxels@);
    Some(voxels)
}

/// The tree of a model, where its voxels can be placed.
pub fn model_to_tree(model: &FileModel) -> (r: Option<Tree<u8>>)
    ensures
        r is Some <==> placeable(model.size.y, model.voxels@),
        r is Some <==> model.voxels@.len() <= u32::MAX && forall|i: int|
            0 <= i < model.voxels@.len() ==> (#[trigger] model.voxels@[i]).y < model.size.y
                && model.voxels@[i].i < 255,
        r matches Some(tree) ==> {
            &&& tree.wf()
            &&& tree.levels() == material_levels()
            &&& forall|c: UVec3|
                tree.covers(c) ==> #[trigger] tree.value(c) == last_value(
                    tree_voxels(model.size.y, model.voxels@),
                    model.voxels@.len(),
                    c,
                )
        },
{
    match model_voxels(model) {
        Some(voxels) => Some(build_tree(&voxels)),
        None => None,
    }
}

/// Whether a voxel of a file is the one at a place of a tree: the first axis is the same, the
/// file's third axis is the tree's second, and its second runs against the tree's third, as far as
/// a byte tells.
pub open spec fn stands_at(size_y: u32, voxel: FileVoxel, c: UVec3) -> bool {
    &&& voxel.x == c.x
    &&& voxel.z == c.y
    &&& c.z < 256
    &&& (voxel.y + 1 + c.z - size_y) % 256 == 0
}

/// At each place, the tree of a model tells the color of the last of its voxels that stands there,
/// counted from one, and nothing where none does.
pub proof fn law_tree_tells_colors(size_y: u32, voxels: Seq<FileVoxel>, n: nat, c: UVec3)
    requires
        placeable(size_y, voxels),
        n <= voxels.len(),
    ensures
        match last_value(tree_voxels(size_y, voxels), n, c) {
            Some(value) => exists|k: int|
                0 <= k < n && stands_at(size_y, #[trigger] voxels[k], c) && value == voxels[k].i + 1
                    && forall|j: int| k < j < n ==> !stands_at(size_y, #[trigger] voxels[j], c),
            None => forall|k: int| 0 <= k < n ==> !stands_at(size_y, #[trigger] voxels[k], c),
        },
    decreases n,
{
    if n > 0 {
        let placed = tree_voxels(size_y, voxels)[n - 1];
        let voxel = voxels[n - 1];
        law_tree_tells_colors(size_y, voxels, (n - 1) as nat, c);
        assert(placed.coords == c <==> stands_at(size_y, voxel, c)) by {
            assert(placed.coords.z == (size_y - voxel.y - 1) % 256);
        }
        if placed.coords != c {
            if let Some(value) = last_value(tree_voxels(size_y, voxels), n, c) {
                let k = choose|k: int|
                    0 <= k < n - 1 && stands_at(size_y, #[trigger] voxels[k], c) && value
                        == voxels[k].i + 1 && forall|j: int|
                        k < j < n - 1 ==> !stands_at(size_y, #[trigger] voxels[j], c);
                assert(stands_at(size_y, voxels[k], c));
            }
        } else {
            assert(stands_at(size_y, voxels[n - 1], c));
        }
    }
}

/// In a model no longer than a tree, voxels at different places stay at different places.
pub proof fn law_placement_keeps_voxels_apart(size_y: u32, a: FileVoxel, b: FileVoxel)
    requires
        size_y <= 256,
        a.y < size_y,
        b.y < size_y,
        placed(size_y, a) == placed(size_y, b),
    ensures
        a.x == b.x,
        a.y == b.y,
        a.z == b.z,
{
}

} // verus!
