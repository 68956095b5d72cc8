//! Models whose voxels change while they are shown.

use super::geometry::VoxGeometry;
use super::model;
use super::model::TreeVoxel;
use crate::math::UVec3;
use crate::vdb::tree;
use crate::vdb::tree::Tree;
use std::collections::HashMap;
use vstd::prelude::*;

verus! {

/// A voxel and the place of its material in the table of materials, counted from zero.
#[derive(Clone, Copy, Debug, PartialEq, Eq, Structural)]
pub struct RuntimeVoxel {
    pub coords: UVec3,
    pub material: u8,
}

/// The number that stands for a place: its coordinates one after the other.
pub open spec fn place_key(c: UVec3) -> u128 {
    (c.x + c.y * 0x1_0000_0000 + c.z * 0x1_0000_0000_0000_0000) as u128
}

/// The number that stands for a place: its coordinates one after the other.
fn key(c: UVec3) -> (r: u128)
    ensures
        r == place_key(c),
{
    c.x as u128 + c.y as u128 * 0x1_0000_0000 + c.z as u128 * 0x1_0000_0000_0000_0000
}

proof fn lemma_place_key(c: UVec3, d: UVec3)
    ensures
        place_key(c) == place_key(d) ==> c == d,
{
}

/// Whether an index is that of the last voxel at a place, or there is no voxel there.
pub open spec fn is_last_at(voxels: Seq<RuntimeVoxel>, c: UVec3, index: Option<usize>) -> bool {
    match index {
        Some(i) => {
            &&& i < voxels.len()
            &&& voxels[i as int].coords == c
            &&& forall|k: int| i < k < voxels.len() ==> (#[trigger] voxels[k]).coords != c
        },
        None => forall|k: int| 0 <= k < voxels.len() ==> (#[trigger] voxels[k]).coords != c,
    }
}

/// The index that a table of places gives for one.
spec fn found(lookup: Map<u128, usize>, c: UVec3) -> Option<usize> {
    if lookup.contains_key(place_key(c)) {
        Some(lookup[place_key(c)])
    } else {
        None
    }
}

/// The index of the last voxel at each place.
fn voxel_lookup(voxels: &Vec<RuntimeVoxel>) -> (r: HashMap<u128, usize>)
    ensures
        forall|c: UVec3| is_last_at(voxels@, c, #[trigger] found(r@, c)),
{
    let mut lookup: HashMap<u128, usize> = HashMap::new();
    let mut i: usize = 0;
    assert(voxels@.take(0).len() == 0);
    while i < voxels.len()
        invariant
            i <= voxels@.len(),
            forall|c: UVec3|
                is_last_at(voxels@.take(i as int), c, #[trigger] found(lookup@, c)),
        decreases voxels@.len() - i,
    {
        let ghost before = lookup@;
        lookup.insert(key(voxels[i].coords), i);
        proof {
            let coords = voxels@[i as int].coords;
            let last = voxels@.take(i as int);
            let next = voxels@.take(i + 1);
            assert(next =~= last.push(voxels@[i as int]));
            assert forall|c: UVec3| is_last_at(next, c, #[trigger] found(lookup@, c)) by {
                lemma_place_key(c, coords);
                assert(is_last_at(last, c, found(before, c)));
                if c != coords {
                    assert(found(lookup@, c) == found(before, c));
                }
            }
        }
        i += 1;
    }
    assert(voxels@.take(i as int) =~= voxels@);
    lookup
}

/// Whether two corners are the smallest and the largest coordinates of voxels. Where there is no
/// voxel there are no corners.
pub open spec fn bounded_by(voxels: Seq<RuntimeVoxel>, bounds: Option<(UVec3, UVec3)>) -> bool {
    match bounds {
        Some((min, max)) => {
            &&& forall|i: int|
                0 <= i < voxels.len() ==> min.x <= (#[trigger] voxels[i]).coords.x <= max.x
                    && min.y <= voxels[i].coords.y <= max.y && min.z <= voxels[i].coords.z <= max.z
            &&& exists|i: int| 0 <= i < voxels.len() && (#[trigger] voxels[i]).coords.x == min.x
            &&& exists|i: int| 0 <= i < voxels.len() && (#[trigger] voxels[i]).coords.y == min.y
            &&& exists|i: int| 0 <= i < voxels.len() && (#[trigger] voxels[i]).coords.z == min.z
            &&& exists|i: int| 0 <= i < voxels.len() && (#[trigger] voxels[i]).coords.x == max.x
            &&& exists|i: int| 0 <= i < voxels.len() && (#[trigger] voxels[i]).coords.y == max.y
            &&& exists|i: int| 0 <= i < voxels.len() && (#[trigger] voxels[i]).coords.z == max.z
        },
        None => voxels.len() == 0,
    }
}

/// The smallest and the largest coordinates of voxels, where there are any.
fn voxel_bounds(voxels: &Vec<RuntimeVoxel>) -> (r: Option<(UVec3, UVec3)>)
    ensures
        bounded_by(voxels@, r),
{
    if voxels.len() == 0 {
        return None;
    }
    let mut min: UVec3 = voxels[0].coords;
    let mut max: UVec3 = voxels[0].coords;
    let mut i: usize = 1;
    proof {
        let first = voxels@.take(1);
        assert(first[0] == voxels@[0]);
        assert(bounded_by(first, Some((min, max))));
    }
    while i < voxels.len()
        invariant
            1 <= i <= voxels@.len(),
            bounded_by(voxels@.take(i as int), Some((min, max))),
        decreases voxels@.len() - i,
    {
        let ghost last = voxels@.take(i as int);
        let ghost before = (min, max);
        min = min.min(voxels[i].coords);
        max = max.max(voxels[i].coords);
        proof {
            lemma_bounds_grow(last, voxels@[i as int], before.0, before.1);
            assert(voxels@.take(i + 1) =~= last.push(voxels@[i as int]));
        }
        i += 1;
    }
    assert(voxels@.take(i as int) =~= voxels@);
    Some((min, max))
}

proof fn lemma_bounds_same(
    voxels: Seq<RuntimeVoxel>,
    others: Seq<RuntimeVoxel>,
    bounds: Option<(UVec3, UVec3)>,
)
    requires
        voxels.len() == others.len(),
        forall|i: int|
            0 <= i < voxels.len() ==> (#[trigger] voxels[i]).coords == (
            #[trigger] others[i]).coords,
        bounded_by(voxels, bounds),
    ensures
        bounded_by(others, bounds),
{
    assert forall|i: int| 0 <= i < voxels.len() implies others[i].coords == (
    #[trigger] voxels[i]).coords by {}
    assert forall|i: int| 0 <= i < voxels.len() implies voxels[i].coords == (
    #[trigger] others[i]).coords by {}
}

proof fn lemma_bounds_grow(voxels: Seq<RuntimeVoxel>, voxel: RuntimeVoxel, min: UVec3, max: UVec3)
    requires
        bounded_by(voxels, Some((min, max))),
    ensures
        bounded_by(
            voxels.push(voxel),
            Some((min.min_spec(voxel.coords), max.max_spec(voxel.coords))),
        ),
{
    let next = voxels.push(voxel);
    assert(next[voxels.len() as int] == voxel);
    assert forall|i: int| 0 <= i < voxels.len() implies next[i] == #[trigger] voxels[i] by {}
}

/// The value of a material in a tree: values count from one, and the largest stands for the last two
/// materials.
pub open spec fn value_of(material: u8) -> u8 {
    if material == 255 {
        255
    } else {
        (material + 1) as u8
    }
}

/// The material of a value in a tree.
pub open spec fn material_of(value: u8) -> u8 {
    if value == 0 {
        0
    } else {
        (value - 1) as u8
    }
}

/// Voxels with the values of their materials.
pub open spec fn valued(voxels: Seq<RuntimeVoxel>) -> Seq<TreeVoxel> {
    Seq::new(
        voxels.len(),
        |i: int| TreeVoxel { coords: voxels[i].coords, value: value_of(voxels[i].material) },
    )
}

/// Whether the tree of voxels can be built: each lies in the cube of the tree, and there are no more
/// of them than its nodes can be numbered.
pub open spec fn buildable(voxels: Seq<RuntimeVoxel>) -> bool {
    model::in_tree(valued(voxels)) && voxels.len() <= u32::MAX
}

/// Whether a tree is that of voxels.
pub open spec fn built_of(tree: Tree<u8>, voxels: Seq<RuntimeVoxel>) -> bool {
    &&& tree.wf()
    &&& tree.levels() == model::material_levels()
    &&& forall|c: UVec3|
        tree.covers(c) ==> #[trigger] tree.value(c) == model::last_value(
            valued(voxels),
            voxels.len(),
            c,
        )
}

/// The tree of voxels.
pub fn build_voxels(voxels: &Vec<RuntimeVoxel>) -> (r: Tree<u8>)
    requires
        buildable(voxels@),
    ensures
        built_of(r, voxels@),
{
    let mut values: Vec<TreeVoxel> = Vec::new();
    let mut i: usize = 0;
    while i < voxels.len()
        invariant
            i <= voxels@.len(),
            values@ == valued(voxels@.take(i as int)),
        decreases voxels@.len() - i,
    {
        let voxel: RuntimeVoxel = voxels[i];
        values.push(TreeVoxel { coords: voxel.coords, value: voxel.material.saturating_add(1) });
        i += 1;
        assert(values@ =~= valued(voxels@.take(i as int)));
    }
    assert(voxels@.take(i as int) =~= voxels@);
    model::build_tree(&values)
}

/// The voxels of a tree, with the materials of their values.
pub fn export_voxels(tree: &Tree<u8>) -> (r: Vec<RuntimeVoxel>)
    requires
        tree.wf(),
    ensures
        r@ == exported(*tree),
{
    let places: Vec<UVec3> = tree.iter();
    let mut voxels: Vec<RuntimeVoxel> = Vec::new();
    let mut i: usize = 0;
    while i < places.len()
        invariant
            i <= places@.len(),
            tree.wf(),
            places@ == tree.voxels(),
            voxels@.len() == i,
            forall|k: int|
                0 <= k < i ==> #[trigger] voxels@[k] == (RuntimeVoxel {
                    coords: places@[k],
                    material: material_of(tree.value(places@[k])->0),
                }),
        decreases places@.len() - i,
    {
        let coords: UVec3 = places[i];
        proof {
            tree::law_iter_lists_values(*tree, coords);
            assert(places@.contains(coords));
        }
        let value: u8 = match tree.get_value(coords) {
            Some(value) => value,
            None => 0,
        };
        voxels.push(RuntimeVoxel { coords, material: value.saturating_sub(1) });
        i += 1;
    }
    voxels
}

/// The number of a place in the cube of a tree of materials.
spec fn cube_index(c: UVec3) -> int {
    c.x + c.y * 256 + c.z * 65536
}

proof fn lemma_places_in_cube(places: Seq<UVec3>)
    requires
        places.no_duplicates(),
        forall|i: int|
            0 <= i < places.len() ==> (#[trigger] places[i]).x < 256 && places[i].y < 256
                && places[i].z < 256,
    ensures
        places.len() <= 0x100_0000,
{
    let numbers = places.map_values(|c: UVec3| cube_index(c));
    assert(numbers.no_duplicates()) by {
        assert forall|i: int, j: int| 0 <= i < j < numbers.len() implies numbers[i] != numbers[j] by {
            assert(places[i] != places[j]);
        }
    }
    numbers.unique_seq_to_set();
    vstd::set_lib::lemma_int_range(0, 0x100_0000);
    assert(numbers.to_set().subset_of(vstd::set_lib::set_int_range(0, 0x100_0000))) by {
        assert forall|n: int| numbers.to_set().contains(n) implies vstd::set_lib::set_int_range(
            0,
            0x100_0000,
        ).contains(n) by {
            let i = choose|i: int| 0 <= i < numbers.len() && numbers[i] == n;
            assert(places[i].x < 256);
        }
    }
    vstd::set_lib::lemma_len_subset(
        numbers.to_set(),
        vstd::set_lib::set_int_range(0, 0x100_0000),
    );
}

/// The voxels of a tree, with the materials of their values.
pub open spec fn exported(tree: Tree<u8>) -> Seq<RuntimeVoxel> {
    tree.voxels().map_values(
        |c: UVec3| RuntimeVoxel { coords: c, material: material_of(tree.value(c)->0) },
    )
}

proof fn lemma_exported(tree: Tree<u8>)
    requires
        tree.wf(),
        tree.levels() == model::material_levels(),
    ensures
        buildable(exported(tree)),
        apart(exported(tree)),
{
    let places = tree.voxels();
    tree::law_iter_lists_once(tree);
    assert(tree.levels().last() == tree::Level { fan: 8, cell: 32 });
    assert forall|i: int| 0 <= i < places.len() implies (#[trigger] places[i]).x < 256 && places[i].y
        < 256 && places[i].z < 256 by {
        tree::law_iter_lists_values(tree, places[i]);
        assert(places.contains(places[i]));
        assert(tree.covers(places[i]));
    }
    lemma_places_in_cube(places);
    let voxels = exported(tree);
    assert forall|i: int| 0 <= i < voxels.len() implies (#[trigger] valued(voxels)[i]).coords.x < 256
        && valued(voxels)[i].coords.y < 256 && valued(voxels)[i].coords.z < 256 by {
        assert(places[i].x < 256);
    }
    assert forall|i: int, j: int| 0 <= i < j < voxels.len() implies (#[trigger] voxels[i]).coords != (
    #[trigger] voxels[j]).coords by {
        assert(places[i] != places[j]);
    }
}

/// Why the device did not take what it was given.
#[derive(Clone, Copy, Debug, PartialEq, Eq, Structural)]
pub struct DeviceError(pub i32);

/// A model whose voxels change. Its tree is built anew when that is asked for. How wide its voxels
/// are is held as the bits of a number, and the table of its materials by the number it is known by.
pub struct RuntimeVoxelModel {
    tree: Tree<u8>,
    unit_size: u32,
    material_table: u64,
    voxels: Vec<RuntimeVoxel>,
    lookup: HashMap<u128, usize>,
    bounds: Option<(UVec3, UVec3)>,
    revision: u64,
    dirty: bool,
}

impl RuntimeVoxelModel {
    /// The index under which the voxel at a place is found, where it is found.
    pub closed spec fn index_at(&self, c: UVec3) -> Option<usize> {
        found(self.lookup@, c)
    }

    /// The voxels, in their order.
    pub closed spec fn listed(&self) -> Seq<RuntimeVoxel> {
        self.voxels@
    }

    /// The tree of the voxels as they were when it was last built.
    pub closed spec fn built(&self) -> Tree<u8> {
        self.tree
    }

    /// How wide the voxels are, as the bits of a number.
    pub closed spec fn unit(&self) -> u32 {
        self.unit_size
    }

    /// The table of the materials.
    pub closed spec fn table(&self) -> u64 {
        self.material_table
    }

    /// Whether the voxels of another model are as wide, and it has the same table of materials.
    pub open spec fn same_make(&self, other: RuntimeVoxelModel) -> bool {
        self.unit() == other.unit() && self.table() == other.table()
    }

    /// How often the tree was built anew, a number that starts over after its largest value.
    pub closed spec fn revised(&self) -> u64 {
        self.revision
    }

    /// The smallest and the largest coordinates, where there are voxels.
    pub closed spec fn corners(&self) -> Option<(UVec3, UVec3)> {
        self.bounds
    }

    /// Whether the voxels have changed since the tree was built.
    pub closed spec fn changed(&self) -> bool {
        self.dirty
    }

    /// What holds of every model: a voxel that is found stands at its place, the corners are those of
    /// the voxels, and the tree is theirs unless they have changed.
    pub open spec fn wf(&self) -> bool {
        &&& self.listed().len() <= usize::MAX
        &&& forall|c: UVec3|
            #[trigger] self.index_at(c) matches Some(i) ==> i < self.listed().len()
                && self.listed()[i as int].coords == c
        &&& bounded_by(self.listed(), self.corners())
        &&& !self.changed() ==> built_of(self.built(), self.listed())
    }

    /// Whether every voxel is found, which is so unless voxels share a place.
    pub open spec fn all_found(&self) -> bool {
        forall|i: int|
            0 <= i < self.listed().len() ==> self.index_at(
                (#[trigger] self.listed()[i]).coords,
            ) == Some(i as usize)
    }

    /// Whether this is a new model of the voxels of a geometry.
    pub open spec fn made_of_assets(&self, geometry: VoxGeometry, material_table: u64) -> bool {
        &&& self.wf()
        &&& self.unit() == geometry.unit_size
        &&& self.table() == material_table
        &&& self.listed() == exported(geometry.tree.held())
        &&& self.all_found()
        &&& self.revised() == 0
        &&& !self.changed()
    }

    /// The material of the voxel that is found at a place.
    pub open spec fn material_at(&self, c: UVec3) -> Option<u8> {
        match self.index_at(c) {
            Some(i) => Some(self.listed()[i as int].material),
            None => None,
        }
    }

    /// Whether this is a model in which the voxel at a place was given a material, or one was added.
    pub open spec fn voxel_set(
        &self,
        before: RuntimeVoxelModel,
        coords: UVec3,
        material: u8,
    ) -> bool {
        match before.index_at(coords) {
            Some(i) => {
                &&& self.listed() == before.listed().update(
                    i as int,
                    RuntimeVoxel { coords, material },
                )
                &&& forall|c: UVec3| #[trigger] self.index_at(c) == before.index_at(c)
            },
            None => {
                &&& self.listed() == before.listed().push(RuntimeVoxel { coords, material })
                &&& forall|c: UVec3|
                    #[trigger] self.index_at(c) == (if c == coords {
                        Some(before.listed().len() as usize)
                    } else {
                        before.index_at(c)
                    })
            },
        }
    }

    /// Whether this is a model from which the voxel with an index was taken away, and the last one
    /// took its index.
    pub open spec fn voxel_removed(
        &self,
        before: RuntimeVoxelModel,
        coords: UVec3,
        index: usize,
    ) -> bool {
        let last = before.listed().last();
        let moved = index < before.listed().len() - 1;
        &&& self.listed() == before.listed().update(index as int, last).drop_last()
        &&& forall|c: UVec3|
            #[trigger] self.index_at(c) == (if moved && c == last.coords {
                Some(index)
            } else if c == coords {
                None
            } else {
                before.index_at(c)
            })
    }

    /// A model of the given voxels, unless the device does not take them: told is what it answers
    /// when it is given the tree.
    pub fn from_voxels(
        unit_size: u32,
        material_table: u64,
        voxels: Vec<RuntimeVoxel>,
        registered: Result<(), DeviceError>,
    ) -> (r: Result<RuntimeVoxelModel, DeviceError>)
        requires
            buildable(voxels@),
        ensures
            registered matches Err(error) ==> r == Err::<RuntimeVoxelModel, DeviceError>(error),
            registered is Ok ==> r is Ok,
            r matches Ok(model) ==> {
                &&& model.wf()
                &&& model.unit() == unit_size
                &&& model.table() == material_table
                &&& model.listed() == voxels@
                &&& forall|c: UVec3| is_last_at(voxels@, c, #[trigger] model.index_at(c))
                &&& model.revised() == 0
                &&& !model.changed()
            },
    {
        let lookup: HashMap<u128, usize> = voxel_lookup(&voxels);
        let bounds: Option<(UVec3, UVec3)> = voxel_bounds(&voxels);
        let tree: Tree<u8> = build_voxels(&voxels);
        match registered {
            Err(error) => Err(error),
            Ok(()) => {
                let model = RuntimeVoxelModel {
                    tree,
                    unit_size,
                    material_table,
                    voxels,
                    lookup,
                    bounds,
                    revision: 0,
                    dirty: false,
                };
                proof {
                    assert forall|c: UVec3|
                        is_last_at(model.listed(), c, #[trigger] model.index_at(c)) by {
                        assert(is_last_at(model.listed(), c, found(model.lookup@, c)));
                    }
                }
                Ok(model)
            },
        }
    }

    /// A model of the voxels of a geometry, unless the device does not take them: told is what it
    /// answers when it is given the tree.
    pub fn from_assets(
        geometry: &VoxGeometry,
        material_table: u64,
        registered: Result<(), DeviceError>,
    ) -> (r: Result<RuntimeVoxelModel, DeviceError>)
        requires
            geometry.tree.held().wf(),
            geometry.tree.held().levels() == model::material_levels(),
        ensures
            registered matches Err(error) ==> r == Err::<RuntimeVoxelModel, DeviceError>(error),
            registered is Ok ==> r is Ok,
            r matches Ok(model) ==> model.made_of_assets(*geometry, material_table),
            r matches Ok(model) ==> {
                &&& model.unit() == geometry.unit_size
                &&& model.table() == material_table
                &&& model.listed() == exported(geometry.tree.held())
                &&& model.revised() == 0
                &&& !model.changed()
            },
    {
        let voxels: Vec<RuntimeVoxel> = export_voxels(geometry.tree.tree());
        proof {
            lemma_exported(geometry.tree.held());
        }
        match Self::from_voxels(geometry.unit_size, material_table, voxels, registered) {
            Ok(model) => {
                proof {
                    law_voxels_apart_are_found(model);
                }
                Ok(model)
            },
            Err(error) => Err(error),
        }
    }

    /// The voxels, in their order.
    pub fn voxels(&self) -> (r: &Vec<RuntimeVoxel>)
        ensures
            r@ == self.listed(),
    {
        &self.voxels
    }

    /// The tree of the voxels as they were when it was last built.
    pub fn tree(&self) -> (r: &Tree<u8>)
        ensures
            *r == self.built(),
    {
        &self.tree
    }

    /// How often the tree was built anew, a number that starts over after its largest value.
    pub fn revision(&self) -> (r: u64)
        ensures
            r == self.revised(),
    {
        self.revision
    }

    /// How wide the voxels are, as the bits of a number.
    pub fn unit_size(&self) -> (r: u32)
        ensures
            r == self.unit(),
    {
        self.unit_size
    }

    /// The table of the materials.
    pub fn material_table(&self) -> (r: u64)
        ensures
            r == self.table(),
    {
        self.material_table
    }

    /// The box around the voxels, where there are some: their smallest coordinates, and what lies
    /// just past their largest.
    pub fn bounds(&self) -> (r: Option<([u64; 3], [u64; 3])>)
        ensures
            r is Some <==> self.corners() is Some,
            r matches Some((min, max)) ==> {
                let (smallest, largest) = self.corners()->0;
                &&& min@ == seq![smallest.x as u64, smallest.y as u64, smallest.z as u64]
                &&& max@ == seq![
                    (largest.x + 1) as u64,
                    (largest.y + 1) as u64,
                    (largest.z + 1) as u64,
                ]
            },
    {
        match self.bounds {
            Some((smallest, largest)) => {
                let min: [u64; 3] = [smallest.x as u64, smallest.y as u64, smallest.z as u64];
                let max: [u64; 3] = [
                    largest.x as u64 + 1,
                    largest.y as u64 + 1,
                    largest.z as u64 + 1,
                ];
                proof {
                    assert(min@ =~= seq![smallest.x as u64, smallest.y as u64, smallest.z as u64]);
                    assert(max@ =~= seq![
                        (largest.x + 1) as u64,
                        (largest.y + 1) as u64,
                        (largest.z + 1) as u64,
                    ]);
                }
                Some((min, max))
            },
            None => None,
        }
    }

    /// Whether the voxels have changed since the tree was built.
    pub fn is_dirty(&self) -> (r: bool)
        ensures
            r == self.changed(),
    {
        self.dirty
    }

    /// Gives the voxel at a place a material. Where none is found there, one is added.
    pub fn set_voxel(&mut self, coords: UVec3, material: u8)
        requires
            old(self).wf(),
        ensures
            final(self).wf(),
            final(self).changed(),
            final(self).built() == old(self).built(),
            final(self).revised() == old(self).revised(),
            final(self).same_make(*old(self)),
            final(self).unit() == old(self).unit(),
            final(self).table() == old(self).table(),
            final(self).voxel_set(*old(self), coords, material),
    {
        let ghost before = *self;
        let at: Option<usize> = match self.lookup.get(&key(coords)) {
            Some(index) => Some(*index),
            None => None,
        };
        assert(at == before.index_at(coords));
        match at {
            Some(index) => {
                self.voxels[index].material = material;
            },
            None => {
                let index: usize = self.voxels.len();
                self.lookup.insert(key(coords), index);
                self.voxels.push(RuntimeVoxel { coords, material });
                self.bounds = voxel_bounds(&self.voxels);
            },
        }
        self.dirty = true;
        proof {
            assert(self.voxels@.len() == self.voxels.len());
            assert forall|c: UVec3|
                self.index_at(c) == (if c == coords && at is None {
                    Some(before.voxels@.len() as usize)
                } else {
                    #[trigger] before.index_at(c)
                }) by {
                lemma_place_key(c, coords);
            }
            assert forall|c: UVec3| (#[trigger] self.index_at(c)) is Some implies {
                let i = self.index_at(c)->0;
                i < self.voxels@.len() && self.voxels@[i as int].coords == c
            } by {
                assert(before.index_at(c) matches Some(i) ==> i < before.voxels@.len());
            }
            if at is Some {
                lemma_bounds_same(before.voxels@, self.voxels@, self.corners());
            }
        }
    }

    /// Takes the voxel that is found at a place away. The last voxel takes its index.
    pub fn remove_voxel(&mut self, coords: UVec3) -> (r: Option<RuntimeVoxel>)
        requires
            old(self).wf(),
        ensures
            final(self).wf(),
            final(self).built() == old(self).built(),
            final(self).revised() == old(self).revised(),
            final(self).same_make(*old(self)),
            final(self).unit() == old(self).unit(),
            final(self).table() == old(self).table(),
            match old(self).index_at(coords) {
                Some(i) => {
                    &&& r == Some(old(self).listed()[i as int])
                    &&& final(self).changed()
                    &&& final(self).voxel_removed(*old(self), coords, i)
                },
                None => r is None && *final(self) == *old(self),
            },
    {
        let ghost before = *self;
        let at: Option<usize> = match self.lookup.get(&key(coords)) {
            Some(index) => Some(*index),
            None => None,
        };
        assert(at == before.index_at(coords));
        let index: usize = match at {
            Some(index) => index,
            None => {
                return None;
            },
        };
        self.lookup.remove(&key(coords));
        let removed: RuntimeVoxel = self.voxels.swap_remove(index);
        if index < self.voxels.len() {
            self.lookup.insert(key(self.voxels[index].coords), index);
        }
        self.bounds = voxel_bounds(&self.voxels);
        self.dirty = true;
        proof {
            let last = before.voxels@.last();
            let moved = index < before.voxels@.len() - 1;
            assert forall|c: UVec3| #[trigger]
                self.index_at(c) == (if moved && c == last.coords {
                    Some(index)
                } else if c == coords {
                    None
                } else {
                    before.index_at(c)
                }) by {
                lemma_place_key(c, coords);
                lemma_place_key(c, last.coords);
            }
            assert forall|c: UVec3| (#[trigger] self.index_at(c)) is Some implies {
                let i = self.index_at(c)->0;
                i < self.voxels@.len() && self.voxels@[i as int].coords == c
            } by {
                assert(before.index_at(c) matches Some(i) ==> i < before.voxels@.len());
            }
        }
        Some(removed)
    }

    /// Builds the tree anew if the voxels have changed, unless the device does not take it: told is
    /// what it answers when it is given the tree. A model whose tree is not taken stays as it was.
    pub fn rebuild_if_dirty(&mut self, registered: Result<(), DeviceError>) -> (r: Result<
        (),
        DeviceError,
    >)
        requires
            old(self).wf(),
            old(self).changed() ==> buildable(old(self).listed()),
        ensures
            final(self).wf(),
            r is Err <==> old(self).changed() && registered is Err,
            r matches Err(error) ==> registered == Err::<(), DeviceError>(error),
            !old(self).changed() || registered is Err ==> *final(self) == *old(self),
            old(self).changed() && registered is Ok ==> rebuilt(*old(self), *final(self)),
            final(self).listed() == old(self).listed(),
            final(self).unit() == old(self).unit(),
            final(self).table() == old(self).table(),
            registered is Ok ==> !final(self).changed(),
            old(self).changed() && registered is Ok && old(self).revised() < u64::MAX
                ==> final(self).revised() == old(self).revised() + 1,
    {
        if !self.dirty {
            return Ok(());
        }
        let tree: Tree<u8> = build_voxels(&self.voxels);
        match registered {
            Err(error) => {
                return Err(error);
            },
            Ok(()) => {},
        }
        self.tree = tree;
        self.lookup = voxel_lookup(&self.voxels);
        self.bounds = voxel_bounds(&self.voxels);
        self.revision = self.revision.wrapping_add(1);
        self.dirty = false;
        proof {
            assert forall|c: UVec3| is_last_at(self.listed(), c, #[trigger] self.index_at(c)) by {
                assert(is_last_at(self.voxels@, c, found(self.lookup@, c)));
            }
        }
        Ok(())
    }
}

/// Whether a model is another one whose tree was built anew.
pub open spec fn rebuilt(before: RuntimeVoxelModel, after: RuntimeVoxelModel) -> bool {
    &&& after.wf()
    &&& !after.changed()
    &&& after.listed() == before.listed()
    &&& after.same_make(before)
    &&& forall|c: UVec3| is_last_at(before.listed(), c, #[trigger] after.index_at(c))
    &&& after.revised() == (if before.revised() == u64::MAX {
        0
    } else {
        before.revised() + 1
    })
}

/// Which model is meant.
#[derive(Clone, Copy, Debug, PartialEq, Eq, Hash, Structural)]
pub struct RuntimeVoxelModelId(pub u64);

/// What ties an entity to a model.
#[derive(Clone, Copy, Debug, PartialEq, Eq, Structural)]
pub struct RuntimeVoxelModelRef {
    pub id: RuntimeVoxelModelId,
}

/// The models whose voxels change.
pub struct RuntimeVoxelWorld {
    pub models: HashMap<u64, RuntimeVoxelModel>,
}

impl Default for RuntimeVoxelWorld {
    fn default() -> (r: RuntimeVoxelWorld)
        ensures
            r.models@ == Map::<u64, RuntimeVoxelModel>::empty(),
    {
        RuntimeVoxelWorld { models: HashMap::new() }
    }
}

impl RuntimeVoxelWorld {
    /// A model, where there is one.
    pub fn model(&self, id: RuntimeVoxelModelId) -> (r: Option<&RuntimeVoxelModel>)
        ensures
            r is Some <==> self.models@.contains_key(id.0),
            r matches Some(model) ==> *model == self.models@[id.0],
    {
        self.models.get(&id.0)
    }

    /// A model, where there is one, to be changed.
    pub fn model_mut(&mut self, id: RuntimeVoxelModelId) -> (r: Option<&mut RuntimeVoxelModel>)
        ensures
            r is Some <==> old(self).models@.contains_key(id.0),
            r matches Some(model) ==> *model == old(self).models@[id.0] && final(self).models@
                == old(self).models@.insert(id.0, *final(model)),
            r is None ==> final(self).models@ == old(self).models@,
    {
        match self.models.entry(id.0) {
            std::collections::hash_map::Entry::Occupied(entry) => Some(entry.into_mut()),
            std::collections::hash_map::Entry::Vacant(_) => None,
        }
    }

    /// A model to be changed, made of the voxels of a geometry where there is none yet, unless the
    /// device does not take them: told is what it answers when it is given the tree.
    pub fn ensure_model_from_assets(
        &mut self,
        id: RuntimeVoxelModelId,
        geometry: &VoxGeometry,
        material_table: u64,
        registered: Result<(), DeviceError>,
    ) -> (r: Result<&mut RuntimeVoxelModel, DeviceError>)
        requires
            geometry.tree.held().wf(),
            geometry.tree.held().levels() == model::material_levels(),
        ensures
            r is Ok <==> old(self).models@.contains_key(id.0) || registered is Ok,
            r matches Err(error) ==> registered == Err::<(), DeviceError>(error)
                && final(self).models@ == old(self).models@,
            r matches Ok(model) ==> {
                &&& old(self).models@.contains_key(id.0) ==> *model == old(self).models@[id.0]
                &&& !old(self).models@.contains_key(id.0) ==> model.made_of_assets(
                    *geometry,
                    material_table,
                )
                &&& final(self).models@ == old(self).models@.insert(id.0, *final(model))
            },
    {
        match self.models.entry(id.0) {
            std::collections::hash_map::Entry::Occupied(entry) => Ok(entry.into_mut()),
            std::collections::hash_map::Entry::Vacant(entry) => {
                match RuntimeVoxelModel::from_assets(geometry, material_table, registered) {
                    Ok(model) => Ok(entry.insert(model)),
                    Err(error) => Err(error),
                }
            },
        }
    }
}

/// The models of a world after those of a list were built anew if they had changed.
pub open spec fn brought_up_to_date(
    before: Map<u64, RuntimeVoxelModel>,
    after: Map<u64, RuntimeVoxelModel>,
    ids: Seq<u64>,
) -> bool {
    &&& after.dom() == before.dom()
    &&& forall|id: u64|
        #[trigger] before.contains_key(id) ==> {
            if ids.contains(id) && before[id].changed() {
                rebuilt(before[id], after[id])
            } else {
                after[id] == before[id]
            }
        }
}

impl RuntimeVoxelWorld {
    /// Builds the models of a list anew if they have changed, the device taking them all, and tells
    /// which those were.
    pub fn sync_runtime_voxel_world(&mut self, ids: &Vec<u64>) -> (r: Vec<u64>)
        requires
            ids@.no_duplicates(),
            forall|i: int|
                0 <= i < ids@.len() ==> old(self).models@.contains_key(#[trigger] ids@[i])
                    && old(self).models@[ids@[i]].wf() && (old(self).models@[ids@[i]].changed()
                    ==> buildable(old(self).models@[ids@[i]].listed())),
        ensures
            r@ == ids@.filter(|id: u64| old(self).models@[id].changed()),
            brought_up_to_date(old(self).models@, final(self).models@, ids@),
    {
        let mut flushed: Vec<u64> = Vec::new();
        let ghost before = self.models@;
        let ghost is_changed = |id: u64| before[id].changed();
        let mut i: usize = 0;
        assert(ids@.take(0) =~= Seq::empty());
        assert(ids@.take(0).filter(is_changed) =~= Seq::empty()) by {
            reveal(Seq::filter);
        }
        while i < ids.len()
            invariant
                i <= ids@.len(),
                ids@.no_duplicates(),
                forall|k: int|
                    0 <= k < ids@.len() ==> before.contains_key(#[trigger] ids@[k])
                        && before[ids@[k]].wf() && (before[ids@[k]].changed() ==> buildable(
                        before[ids@[k]].listed(),
                    )),
                is_changed == (|id: u64| before[id].changed()),
                flushed@ == ids@.take(i as int).filter(is_changed),
                brought_up_to_date(before, self.models@, ids@.take(i as int)),
            decreases ids@.len() - i,
        {
            let id: u64 = ids[i];
            let ghost last = self.models@;
            let ghost done = ids@.take(i as int);
            proof {
                assert(ids@.take(i + 1) =~= done.push(id));
                assert(ids@[i as int] == id);
                assert(!done.contains(id)) by {
                    if done.contains(id) {
                        let k = choose|k: int| 0 <= k < done.len() && done[k] == id;
                        assert(ids@[k] == ids@[i as int]);
                    }
                }
                assert(last[id] == before[id]);
                lemma_filter_push(done, id, is_changed);
                assert forall|other: u64| ids@.take(i + 1).contains(other) <==> done.contains(other)
                    || other == id by {
                    if done.contains(other) {
                        let k = choose|k: int| 0 <= k < done.len() && done[k] == other;
                        assert(ids@.take(i + 1)[k] == other);
                    }
                    assert(ids@.take(i + 1)[i as int] == id);
                }
            }
            if let Some(model) = self.model_mut(RuntimeVoxelModelId(id)) {
                if model.is_dirty() {
                    let _ = model.rebuild_if_dirty(Ok(()));
                    flushed.push(id);
                }
            }
            assert(self.models@.dom() =~= before.dom());
            i += 1;
        }
        assert(ids@.take(i as int) =~= ids@);
        flushed
    }
}

proof fn lemma_filter_push(s: Seq<u64>, x: u64, keep: spec_fn(u64) -> bool)
    ensures
        s.push(x).filter(keep) == (if keep(x) {
            s.filter(keep).push(x)
        } else {
            s.filter(keep)
        }),
{
    reveal(Seq::filter);
    assert(s.push(x).drop_last() =~= s);
}

/// Whether no two voxels share a place.
pub open spec fn apart(voxels: Seq<RuntimeVoxel>) -> bool {
    forall|i: int, j: int|
        0 <= i < j < voxels.len() ==> (#[trigger] voxels[i]).coords != (#[trigger] voxels[j]).coords
}

/// Where no two voxels share a place, a model that was just made or built anew finds them all.
pub proof fn law_voxels_apart_are_found(model: RuntimeVoxelModel)
    requires
        model.wf(),
        apart(model.listed()),
        forall|c: UVec3| is_last_at(model.listed(), c, #[trigger] model.index_at(c)),
    ensures
        model.all_found(),
{
    assert forall|i: int| 0 <= i < model.listed().len() implies model.index_at(
        (#[trigger] model.listed()[i]).coords,
    ) == Some(i as usize) by {
        let c = model.listed()[i].coords;
        assert(is_last_at(model.listed(), c, model.index_at(c)));
        match model.index_at(c) {
            Some(k) => {
                assert(model.listed()[k as int].coords == c);
            },
            None => {},
        }
    }
}

/// After a voxel was given a material, that material is found at its place, and what is found at any
/// other place is as before. A model that found all its voxels still does.
pub proof fn law_set_voxel(
    before: RuntimeVoxelModel,
    after: RuntimeVoxelModel,
    coords: UVec3,
    material: u8,
)
    requires
        before.wf(),
        after.wf(),
        after.voxel_set(before, coords, material),
    ensures
        after.material_at(coords) == Some(material),
        forall|c: UVec3| c != coords ==> #[trigger] after.material_at(c) == before.material_at(c),
        before.all_found() ==> after.all_found(),
{
    assert forall|c: UVec3| c != coords implies #[trigger] after.material_at(c)
        == before.material_at(c) by {
        assert(after.index_at(c) == before.index_at(c));
    }
    assert(after.index_at(coords) is Some);
    if before.all_found() {
        assert forall|i: int| 0 <= i < after.listed().len() implies after.index_at(
            (#[trigger] after.listed()[i]).coords,
        ) == Some(i as usize) by {
            if i < before.listed().len() {
                assert(before.index_at(before.listed()[i].coords) == Some(i as usize));
            }
        }
    }
}

/// After a voxel was taken away from a model that finds all its voxels, none is found at its place,
/// what is found at any other place is as before, and the model still finds all its voxels.
pub proof fn law_remove_voxel(
    before: RuntimeVoxelModel,
    after: RuntimeVoxelModel,
    coords: UVec3,
    index: usize,
)
    requires
        before.wf(),
        before.all_found(),
        before.index_at(coords) == Some(index),
        after.voxel_removed(before, coords, index),
    ensures
        after.material_at(coords) is None,
        forall|c: UVec3| c != coords ==> #[trigger] after.material_at(c) == before.material_at(c),
        after.all_found(),
{
    let n = before.listed().len();
    let last = before.listed()[n - 1];
    assert(before.index_at(last.coords) == Some((n - 1) as usize));
    assert forall|c: UVec3| c != coords implies #[trigger] after.material_at(c)
        == before.material_at(c) by {
        assert(after.index_at(c) is Some <==> before.index_at(c) is Some);
        if before.index_at(c) is Some {
            let k = before.index_at(c)->0;
            assert(before.listed()[k as int].coords == c);
        }
    }
    assert(after.index_at(coords) is None);
    assert forall|i: int| 0 <= i < after.listed().len() implies after.index_at(
        (#[trigger] after.listed()[i]).coords,
    ) == Some(i as usize) by {
        assert(before.index_at(before.listed()[i].coords) == Some(i as usize));
    }
}

/// Giving a voxel a material changes the one that is found at the place, or adds one at the end
/// where none is found, and leaves all others where they are.
pub proof fn law_set_voxel_in_list(
    before: RuntimeVoxelModel,
    after: RuntimeVoxelModel,
    coords: UVec3,
    material: u8,
) -> (i: int)
    requires
        before.wf(),
        after.voxel_set(before, coords, material),
    ensures
        before.index_at(coords) is Some ==> i == before.index_at(coords)->0 && after.listed().len()
            == before.listed().len(),
        before.index_at(coords) is None ==> i == before.listed().len() && after.listed().len()
            == before.listed().len() + 1,
        0 <= i < after.listed().len(),
        after.listed()[i].coords == coords,
        after.listed()[i].material == material,
        forall|k: int|
            0 <= k < before.listed().len() && k != i ==> #[trigger] after.listed()[k]
                == before.listed()[k],
{
    match before.index_at(coords) {
        Some(i) => i as int,
        None => before.listed().len() as int,
    }
}

/// Taking a voxel away leaves all others, the last of them in its place.
pub proof fn law_remove_voxel_from_list(
    before: RuntimeVoxelModel,
    after: RuntimeVoxelModel,
    coords: UVec3,
    index: usize,
)
    requires
        before.wf(),
        before.index_at(coords) == Some(index),
        after.voxel_removed(before, coords, index),
    ensures
        after.listed().len() + 1 == before.listed().len(),
        index < after.listed().len() ==> after.listed()[index as int]
            == before.listed()[before.listed().len() - 1],
        forall|k: int|
            0 <= k < after.listed().len() && k != index ==> #[trigger] after.listed()[k]
                == before.listed()[k],
{
}

/// A world whose models were brought up to date has the same models, with the same voxels. Those of
/// the list that had changed have been built anew once more, and no others have.
pub proof fn law_up_to_date(
    before: Map<u64, RuntimeVoxelModel>,
    after: Map<u64, RuntimeVoxelModel>,
    ids: Seq<u64>,
    id: u64,
)
    requires
        brought_up_to_date(before, after, ids),
        before.contains_key(id),
    ensures
        after.contains_key(id),
        after[id].listed() == before[id].listed(),
        after[id].unit() == before[id].unit(),
        after[id].table() == before[id].table(),
        ids.contains(id) ==> !after[id].changed(),
        ids.contains(id) && before[id].changed() && before[id].revised() < u64::MAX
            ==> after[id].revised() == before[id].revised() + 1,
        !ids.contains(id) || !before[id].changed() ==> after[id] == before[id],
        forall|other: u64| after.contains_key(other) ==> #[trigger] before.contains_key(other),
{
    assert(after.dom().contains(id));
    assert forall|other: u64| after.contains_key(other) implies #[trigger] before.contains_key(
        other,
    ) by {
        assert(after.dom().contains(other));
    }
}

/// A model that was just made or built anew finds, at a place with voxels, the last of them, and
/// none at a place without.
pub proof fn law_last_voxel_is_found(
    voxels: Seq<RuntimeVoxel>,
    c: UVec3,
    index: Option<usize>,
    k: int,
)
    requires
        is_last_at(voxels, c, index),
        0 <= k < voxels.len(),
        voxels[k].coords == c,
    ensures
        index matches Some(i) && k <= i < voxels.len() && voxels[i as int].coords == c,
{
}

/// The corners of voxels are those of the smallest box that holds them all.
pub proof fn law_corners_hold_voxels(
    voxels: Seq<RuntimeVoxel>,
    bounds: Option<(UVec3, UVec3)>,
    low: UVec3,
    high: UVec3,
)
    requires
        bounded_by(voxels, bounds),
    ensures
        bounds is None <==> voxels.len() == 0,
        bounds matches Some((min, max)) ==> {
            (forall|i: int|
                0 <= i < voxels.len() ==> {
                    &&& low.x <= (#[trigger] voxels[i]).coords.x <= high.x
                    &&& low.y <= voxels[i].coords.y <= high.y
                    &&& low.z <= voxels[i].coords.z <= high.z
                }) <==> {
                &&& low.x <= min.x && max.x <= high.x
                &&& low.y <= min.y && max.y <= high.y
                &&& low.z <= min.z && max.z <= high.z
            }
        },
{
}

/// The tree of voxels tells, at each place, the material of the last voxel there, counted from one,
/// where the largest number stands for the last two materials, and nothing where there is none.
pub proof fn law_tree_tells_materials(tree: Tree<u8>, voxels: Seq<RuntimeVoxel>, c: UVec3)
    requires
        built_of(tree, voxels),
        tree.covers(c),
    ensures
        match tree.value(c) {
            Some(value) => exists|k: int|
                0 <= k < voxels.len() && (#[trigger] voxels[k]).coords == c && value == (
                if voxels[k].material < 255 {
                    voxels[k].material + 1
                } else {
                    255
                }) && forall|j: int|
                    k < j < voxels.len() ==> (#[trigger] voxels[j]).coords != c,
            None => forall|k: int| 0 <= k < voxels.len() ==> (#[trigger] voxels[k]).coords != c,
        },
{
    assert(tree.value(c) == model::last_value(valued(voxels), voxels.len(), c));
    lemma_last_material(voxels, voxels.len(), c);
}

proof fn lemma_last_material(voxels: Seq<RuntimeVoxel>, n: nat, c: UVec3)
    requires
        n <= voxels.len(),
    ensures
        match model::last_value(valued(voxels), n, c) {
            Some(value) => exists|k: int|
                0 <= k < n && (#[trigger] voxels[k]).coords == c && value == (
                if voxels[k].material < 255 {
                    voxels[k].material + 1
                } else {
                    255
                }) && forall|j: int| k < j < n ==> (#[trigger] voxels[j]).coords != c,
            None => forall|k: int| 0 <= k < n ==> (#[trigger] voxels[k]).coords != c,
        },
    decreases n,
{
    if n > 0 {
        lemma_last_material(voxels, (n - 1) as nat, c);
        assert(valued(voxels)[n - 1].coords == voxels[n - 1].coords);
        if voxels[n - 1].coords != c {
            if let Some(value) = model::last_value(valued(voxels), n, c) {
                let k = choose|k: int|
                    0 <= k < n - 1 && (#[trigger] voxels[k]).coords == c && value == (
                    if voxels[k].material < 255 {
                        voxels[k].material + 1
                    } else {
                        255
                    }) && forall|j: int| k < j < n - 1 ==> (#[trigger] voxels[j]).coords != c;
                assert(voxels[k].coords == c);
            }
        }
    }
}

/// What is exported from a tree is a voxel for each place at which it has a value, each once, with
/// the material that is one less than the value, or the first for value 0.
pub proof fn law_export_lists_values(tree: Tree<u8>, c: UVec3, material: u8)
    requires
        tree.wf(),
    ensures
        exported(tree).contains(RuntimeVoxel { coords: c, material }) <==> tree.covers(c) && (
        tree.value(c) matches Some(value) && (material + 1 == value || value == 0 && material == 0)),
        apart(exported(tree)),
{
    let voxel = RuntimeVoxel { coords: c, material };
    let voxels = exported(tree);
    tree::law_iter_lists_values(tree, c);
    if voxels.contains(voxel) {
        let i = choose|i: int| 0 <= i < voxels.len() && voxels[i] == voxel;
        assert(tree.voxels()[i] == c);
        assert(tree.voxels().contains(c));
    }
    if tree.voxels().contains(c) {
        let i = choose|i: int| 0 <= i < tree.voxels().len() && tree.voxels()[i] == c;
        assert(voxels[i].coords == c);
    }
    tree::law_iter_lists_once(tree);
    assert forall|i: int, j: int| 0 <= i < j < voxels.len() implies (#[trigger] voxels[i]).coords != (
    #[trigger] voxels[j]).coords by {
        assert(tree.voxels()[i] != tree.voxels()[j]);
    }
}

proof fn lemma_last_value(voxels: Seq<RuntimeVoxel>, n: nat, i: int)
    requires
        0 <= i < n <= voxels.len(),
        apart(voxels),
    ensures
        model::last_value(valued(voxels), n, voxels[i].coords) == Some(
            value_of(voxels[i].material),
        ),
    decreases n,
{
    if i < n - 1 {
        assert(voxels[i].coords != voxels[n - 1].coords);
        lemma_last_value(voxels, (n - 1) as nat, i);
    }
}

proof fn lemma_no_value(voxels: Seq<RuntimeVoxel>, n: nat, c: UVec3)
    requires
        n <= voxels.len(),
        forall|i: int| 0 <= i < n ==> (#[trigger] voxels[i]).coords != c,
    ensures
        model::last_value(valued(voxels), n, c) is None,
    decreases n,
{
    if n > 0 {
        assert(voxels[n - 1].coords != c);
        lemma_no_value(voxels, (n - 1) as nat, c);
    }
}

/// The tree of a model that finds all its voxels and has not changed since it was built holds, at
/// each place, the value of the material that is found there.
pub proof fn law_tree_holds_materials(model: RuntimeVoxelModel, c: UVec3)
    requires
        model.wf(),
        model.all_found(),
        !model.changed(),
        model.built().covers(c),
    ensures
        model.built().value(c) == (match model.material_at(c) {
            Some(material) => Some(value_of(material)),
            None => None,
        }),
{
    let voxels = model.listed();
    assert(apart(voxels)) by {
        assert forall|i: int, j: int| 0 <= i < j < voxels.len() implies (#[trigger] voxels[i]).coords
            != (#[trigger] voxels[j]).coords by {
            assert(model.index_at(voxels[i].coords) == Some(i as usize));
            assert(model.index_at(voxels[j].coords) == Some(j as usize));
        }
    }
    match model.index_at(c) {
        Some(i) => {
            lemma_last_value(voxels, voxels.len(), i as int);
        },
        None => {
            assert forall|i: int| 0 <= i < voxels.len() implies (#[trigger] voxels[i]).coords != c by {
                assert(model.index_at(voxels[i].coords) == Some(i as usize));
            }
            lemma_no_value(voxels, voxels.len(), c);
        },
    }
}

/// What is exported from the tree of a model that finds all its voxels and has not changed since it
/// was built is what is found, where that is not the last material, which shares its value.
pub proof fn law_export_gives_materials_back(model: RuntimeVoxelModel, c: UVec3, material: u8)
    requires
        model.wf(),
        model.all_found(),
        !model.changed(),
        model.built().covers(c),
        model.material_at(c) != Some(255u8),
    ensures
        exported(model.built()).contains(RuntimeVoxel { coords: c, material })
            <==> model.material_at(c) == Some(material),
{
    let tree = model.built();
    let voxel = RuntimeVoxel { coords: c, material };
    let voxels = exported(tree);
    law_tree_holds_materials(model, c);
    tree::law_iter_lists_values(tree, c);
    if voxels.contains(voxel) {
        let i = choose|i: int| 0 <= i < voxels.len() && voxels[i] == voxel;
        assert(tree.voxels()[i] == c);
        assert(tree.voxels().contains(c));
    }
    if model.material_at(c) == Some(material) {
        let i = choose|i: int| 0 <= i < tree.voxels().len() && tree.voxels()[i] == c;
        assert(voxels[i] == voxel);
    }
}

} // verus!
