//! A tree of nodes over a cube of voxels. Each node divides its cube into equal cells; the cells of
//! a leaf are voxels, the cells of any other node are the cubes of nodes of the level below.

use crate::math::UVec3;
use vstd::prelude::*;

verus! {

/// How the nodes of a level divide their cubes: into how many cells along each axis, and how many
/// voxels a cell is wide.
#[derive(Clone, Copy, Debug, PartialEq, Eq, Structural)]
pub struct Level {
    pub fan: u32,
    pub cell: u32,
}

/// A node: the places of the nodes of its cells in the pool of the level below, or the values of
/// its voxels.
pub enum Node<V> {
    Internal { children: Vec<Option<u32>> },
    Leaf { values: Vec<Option<V>> },
}

/// A node, by its parts.
pub enum NodeView<V> {
    Internal { children: Seq<Option<u32>> },
    Leaf { values: Seq<Option<V>> },
}

impl<V> View for Node<V> {
    type V = NodeView<V>;

    open spec fn view(&self) -> NodeView<V> {
        match *self {
            Node::Internal { children } => NodeView::Internal { children: children@ },
            Node::Leaf { values } => NodeView::Leaf { values: values@ },
        }
    }
}

/// The nodes of each level, the leaves first and the root, alone, last.
pub type Pools<V> = Seq<Seq<NodeView<V>>>;

/// A tree of nodes over a cube of voxels.
pub struct Tree<V> {
    levels: Vec<Level>,
    pools: Vec<Vec<Node<V>>>,
}

/// Whether the cells of each level are the cubes of the level below, and the width of the tree can
/// be told.
pub open spec fn levels_ok(levels: Seq<Level>) -> bool {
    &&& levels.len() > 0
    &&& levels[0].cell == 1
    &&& forall|i: int| 0 <= i < levels.len() ==> 1 <= (#[trigger] levels[i]).fan <= 256
    &&& forall|i: int| 0 <= i < levels.len() ==> 1 <= (#[trigger] levels[i]).cell
    &&& forall|i: int|
        0 < i < levels.len() ==> (#[trigger] levels[i]).cell == levels[i - 1].cell * levels[i - 1].fan
    &&& levels.last().cell * levels.last().fan <= u32::MAX
}

/// The number of cells of a node.
pub open spec fn cells(level: Level) -> int {
    level.fan * level.fan * level.fan
}

/// The cell of a node that a voxel lies in, counted along the third axis first.
pub open spec fn slot(level: Level, c: UVec3) -> int {
    ((c.x / level.cell) % level.fan * level.fan + (c.y / level.cell) % level.fan) * level.fan + (c.z
        / level.cell) % level.fan
}

/// Whether a node is one of a level.
pub open spec fn node_fits<V>(node: NodeView<V>, levels: Seq<Level>, level: int, below: int) -> bool {
    match node {
        NodeView::Internal { children } => {
            &&& level > 0
            &&& children.len() == cells(levels[level])
            &&& forall|s: int|
                0 <= s < children.len() ==> (#[trigger] children[s] matches Some(child) ==> child
                    < below)
        },
        NodeView::Leaf { values } => level == 0 && values.len() == cells(levels[level]),
    }
}

/// Whether no two cells of the nodes of a pool share a node.
pub open spec fn owned<V>(pool: Seq<NodeView<V>>) -> bool {
    forall|a: int, s: int, b: int, t: int|
        0 <= a < pool.len() && 0 <= b < pool.len() && (a != b || s != t) && #[trigger] child_at(
            pool[a],
            s,
        ) is Some && #[trigger] child_at(pool[b], t) is Some ==> child_at(pool[a], s) != child_at(
            pool[b],
            t,
        )
}

/// The node of a cell, where there is one.
pub open spec fn child_at<V>(node: NodeView<V>, s: int) -> Option<u32> {
    match node {
        NodeView::Internal { children } => if 0 <= s < children.len() {
            children[s]
        } else {
            None
        },
        NodeView::Leaf { values } => None,
    }
}

/// The value of a voxel of a leaf, where it has one.
pub open spec fn leaf_value<V>(node: NodeView<V>, s: int) -> Option<V> {
    match node {
        NodeView::Internal { children } => None,
        NodeView::Leaf { values } => if 0 <= s < values.len() {
            values[s]
        } else {
            None
        },
    }
}

/// The value of a voxel under a node of a level, where it has one.
pub open spec fn find<V>(
    levels: Seq<Level>,
    pools: Pools<V>,
    level: nat,
    node: int,
    c: UVec3,
) -> Option<V>
    decreases level,
{
    let s = slot(levels[level as int], c);
    if level == 0 {
        leaf_value(pools[0][node], s)
    } else {
        match child_at(pools[level as int][node], s) {
            Some(child) => find(levels, pools, (level - 1) as nat, child as int, c),
            None => None,
        }
    }
}

/// Whether pools hold the nodes of a tree: those of each level fit it, no two cells share a node,
/// and there is one root.
pub open spec fn pools_ok<V>(levels: Seq<Level>, pools: Pools<V>) -> bool {
    &&& pools.len() == levels.len()
    &&& pools.last().len() == 1
    &&& forall|l: int| 0 <= l < pools.len() ==> (#[trigger] pools[l]).len() <= u32::MAX
    &&& forall|l: int| 0 <= l < pools.len() ==> owned(#[trigger] pools[l])
    &&& forall|l: int, n: int|
        0 <= l < pools.len() && 0 <= n < pools[l].len() ==> node_fits(
            #[trigger] pools[l][n],
            levels,
            l,
            if l > 0 {
                pools[l - 1].len() as int
            } else {
                0
            },
        )
}

impl<V: Copy> Tree<V> {
    /// The levels, the leaves first.
    pub closed spec fn levels(&self) -> Seq<Level> {
        self.levels@
    }

    /// The nodes of each level.
    pub closed spec fn pools(&self) -> Pools<V> {
        Seq::new(
            self.pools@.len(),
            |l: int| Seq::new(self.pools@[l]@.len(), |n: int| self.pools@[l]@[n]@),
        )
    }

    /// Whether the levels fit each other, and the pools fit the levels.
    pub open spec fn wf(&self) -> bool {
        levels_ok(self.levels()) && pools_ok(self.levels(), self.pools())
    }

    /// The number of voxels along each axis.
    pub open spec fn width(&self) -> int {
        self.levels().last().cell * self.levels().last().fan
    }

    /// Whether a voxel lies in the cube of the tree.
    pub open spec fn covers(&self, c: UVec3) -> bool {
        c.x < self.width() && c.y < self.width() && c.z < self.width()
    }

    /// The value of a voxel, where it has one.
    pub open spec fn value(&self, c: UVec3) -> Option<V> {
        find(self.levels(), self.pools(), (self.levels().len() - 1) as nat, 0, c)
    }
}

fn slot_of(level: Level, c: UVec3) -> (r: usize)
    requires
        1 <= level.fan <= 256,
        1 <= level.cell,
    ensures
        r == slot(level, c),
        r < cells(level),
{
    let x: u32 = (c.x / level.cell) % level.fan;
    let y: u32 = (c.y / level.cell) % level.fan;
    let z: u32 = (c.z / level.cell) % level.fan;
    proof {
        lemma_cell_index(x as int, y as int, z as int, level.fan as int);
    }
    ((x * level.fan + y) * level.fan + z) as usize
}

proof fn lemma_cell_index(x: int, y: int, z: int, n: int)
    by (nonlinear_arith)
    requires
        0 <= x < n,
        0 <= y < n,
        0 <= z < n,
        n <= 256,
    ensures
        0 <= x * n <= 65536,
        0 <= (x * n + y) * n <= 16777216,
        0 <= (x * n + y) * n + z < n * n * n,
        n * n * n <= 16777216,
{
    assert(x * n + y < n * n);
    assert((x * n + y + 1) * n <= n * n * n);
}

/// The node of a level that nothing is noted in.
pub open spec fn blank<V>(levels: Seq<Level>, level: int) -> NodeView<V> {
    if level == 0 {
        NodeView::Leaf { values: Seq::new(cells(levels[level]) as nat, |i: int| None) }
    } else {
        NodeView::Internal { children: Seq::new(cells(levels[level]) as nat, |i: int| None) }
    }
}

fn blank_node<V: Copy>(levels: &Vec<Level>, level: usize) -> (r: Node<V>)
    requires
        levels_ok(levels@),
        level < levels@.len(),
    ensures
        r@ == blank::<V>(levels@, level as int),
{
    let fan: usize = levels[level].fan as usize;
    proof {
        lemma_cell_index(0, 0, 0, fan as int);
        assert(fan * fan <= 65536) by (nonlinear_arith)
            requires
                0 <= fan <= 256,
        ;
    }
    let count: usize = fan * fan * fan;
    if level == 0 {
        let mut values: Vec<Option<V>> = Vec::new();
        while values.len() < count
            invariant
                values@.len() <= count,
                forall|i: int| 0 <= i < values@.len() ==> values@[i] is None,
            decreases count - values@.len(),
        {
            values.push(None);
        }
        assert(values@ =~= Seq::new(cells(levels@[level as int]) as nat, |i: int| None));
        Node::Leaf { values }
    } else {
        let mut children: Vec<Option<u32>> = Vec::new();
        while children.len() < count
            invariant
                children@.len() <= count,
                forall|i: int| 0 <= i < children@.len() ==> children@[i] is None,
            decreases count - children@.len(),
        {
            children.push(None);
        }
        assert(children@ =~= Seq::new(cells(levels@[level as int]) as nat, |i: int| None));
        Node::Internal { children }
    }
}

impl<V: Copy> Tree<V> {
    /// Adds a node that nothing is noted in to the pool of a level below the root, and returns its
    /// place.
    pub fn alloc_node(&mut self, level: usize) -> (r: u32)
        requires
            old(self).wf(),
            level + 1 < old(self).levels().len(),
            old(self).pools()[level as int].len() < u32::MAX,
        ensures
            final(self).wf(),
            final(self).levels() == old(self).levels(),
            r == old(self).pools()[level as int].len(),
            final(self).pools() == old(self).pools().update(
                level as int,
                old(self).pools()[level as int].push(blank(old(self).levels(), level as int)),
            ),
    {
        let node: Node<V> = blank_node(&self.levels, level);
        let ghost pool = self.pools()[level as int];
        let ghost before = self.pools();
        let index: u32 = self.pools[level].len() as u32;
        self.pools[level].push(node);
        proof {
            let after = self.pools();
            assert(after =~= before.update(level as int, pool.push(node@))) by {
                assert forall|l: int| 0 <= l < after.len() implies #[trigger] after[l] == before.update(
                    level as int,
                    pool.push(node@),
                )[l] by {
                    assert(after[l] =~= before.update(level as int, pool.push(node@))[l]);
                }
            }
            lemma_pools_grow(self.levels@, before, level as int);
        }
        index
    }
}

/// Pools still hold the nodes of a tree once a node has been added that nothing is noted in.
proof fn lemma_pools_grow<V>(levels: Seq<Level>, pools: Pools<V>, level: int)
    requires
        levels_ok(levels),
        pools_ok(levels, pools),
        0 <= level < levels.len() - 1,
        pools[level].len() < u32::MAX,
    ensures
        pools_ok(levels, pools.update(level, pools[level].push(blank(levels, level)))),
{
    let node = blank::<V>(levels, level);
    let after = pools.update(level, pools[level].push(node));
    let fan = levels[level].fan as int;
    assert(0 <= cells(levels[level])) by (nonlinear_arith)
        requires
            0 <= levels[level].fan,
    ;
    assert forall|l: int, n: int| 0 <= l < after.len() && 0 <= n < after[l].len() implies node_fits(
        #[trigger] after[l][n],
        levels,
        l,
        if l > 0 {
            after[l - 1].len() as int
        } else {
            0
        },
    ) by {
        if l == level && n == pools[level].len() {
            assert(after[l][n] == node);
        } else {
            assert(after[l][n] == pools[l][n]);
        }
    }
    assert forall|l: int| 0 <= l < after.len() implies owned(#[trigger] after[l]) by {
        if l == level {
            assert(owned(pools[l]));
            assert forall|a: int, s: int, b: int, t: int|
                0 <= a < after[l].len() && 0 <= b < after[l].len() && (a != b || s != t)
                    && #[trigger] child_at(after[l][a], s) is Some && #[trigger] child_at(
                    after[l][b],
                    t,
                ) is Some implies child_at(after[l][a], s) != child_at(after[l][b], t) by {
                assert(child_at(node, s) is None && child_at(node, t) is None);
                assert(after[l][a] == pools[l][a]);
                assert(after[l][b] == pools[l][b]);
            }
        }
    }
}

/// Whether two voxels lie in the same cells of the nodes of a level and of all levels below.
pub open spec fn same_path(levels: Seq<Level>, level: nat, c: UVec3, d: UVec3) -> bool
    decreases level,
{
    &&& slot(levels[level as int], c) == slot(levels[level as int], d)
    &&& level > 0 ==> same_path(levels, (level - 1) as nat, c, d)
}

/// The node of the level `target` that the cells of a voxel lead to from a node, where there is one.
pub open spec fn node_at<V>(
    levels: Seq<Level>,
    pools: Pools<V>,
    level: nat,
    node: int,
    c: UVec3,
    target: nat,
) -> Option<int>
    decreases level,
{
    if level <= target {
        Some(node)
    } else {
        match child_at(pools[level as int][node], slot(levels[level as int], c)) {
            Some(child) => node_at(levels, pools, (level - 1) as nat, child as int, c, target),
            None => None,
        }
    }
}

/// The leaf that the cells of a voxel lead to from a node, where there is one.
pub open spec fn leaf_of<V>(
    levels: Seq<Level>,
    pools: Pools<V>,
    level: nat,
    node: int,
    c: UVec3,
) -> Option<int> {
    node_at(levels, pools, level, node, c, 0)
}

/// What becomes of the leaves of voxels when the value of the voxels on a path is set: a leaf comes
/// where one is needed and there was none.
pub open spec fn leaf_set<V>(
    levels: Seq<Level>,
    before: Pools<V>,
    after: Pools<V>,
    level: nat,
    node: int,
    c: UVec3,
    value: Option<V>,
) -> bool {
    forall|n: int, d: UVec3|
        0 <= n < before[level as int].len() ==> #[trigger] leaf_of(levels, after, level, n, d)
            == leaf_after(
            levels,
            before,
            level,
            n,
            d,
            n == node && value is Some && same_route(levels, level, c, d),
        )
}

/// The leaf of a voxel once one has been made where there was none, if it is needed.
pub open spec fn leaf_after<V>(
    levels: Seq<Level>,
    before: Pools<V>,
    level: nat,
    node: int,
    d: UVec3,
    needed: bool,
) -> Option<int> {
    if needed && leaf_of(levels, before, level, node, d) is None {
        Some(before[0].len() as int)
    } else {
        leaf_of(levels, before, level, node, d)
    }
}

/// Whether the nodes of a level and of all levels below are as they were, but for those that the
/// cells of a voxel lead to.
pub open spec fn path_only<V>(
    levels: Seq<Level>,
    before: Pools<V>,
    after: Pools<V>,
    level: nat,
    node: int,
    c: UVec3,
) -> bool {
    forall|l: nat, n: int|
        l <= level ==> #[trigger] kept(
            before,
            after,
            l as int,
            n,
            node_at(levels, after, level, node, c, l),
        )
}

/// Whether a node of a level, where there is such a node, is as it was, or is the one on a path.
pub open spec fn kept<V>(
    before: Pools<V>,
    after: Pools<V>,
    level: int,
    n: int,
    on_path: Option<int>,
) -> bool {
    0 <= n < after[level].len() && on_path != Some(n) ==> n < before[level].len()
        && after[level][n] == before[level][n]
}

/// Whether the pools of all levels below `level` have room for one more node.
pub open spec fn has_room<V>(pools: Pools<V>, level: int) -> bool {
    forall|l: int| 0 <= l < level ==> (#[trigger] pools[l]).len() < u32::MAX
}

/// What becomes of the values of voxels when that of the voxels on a path is set.
pub open spec fn path_set<V>(
    levels: Seq<Level>,
    before: Pools<V>,
    after: Pools<V>,
    level: nat,
    node: int,
    c: UVec3,
    value: Option<V>,
) -> bool {
    forall|n: int, d: UVec3|
        0 <= n < before[level as int].len() ==> #[trigger] find(levels, after, level, n, d) == (if n
            == node && same_path(levels, level, c, d) {
            value
        } else {
            find(levels, before, level, n, d)
        })
}

impl<V: Copy> Tree<V> {
    /// The value of a voxel, where it has one.
    pub fn get_value(&self, c: UVec3) -> (r: Option<V>)
        requires
            self.wf(),
        ensures
            r == self.value(c),
    {
        let mut level: usize = self.levels.len() - 1;
        let mut node: usize = 0;
        assert(self.pools()[level as int].len() == 1);
        loop
            invariant
                self.wf(),
                level < self.levels@.len(),
                node < self.pools()[level as int].len(),
                self.value(c) == find(self.levels(), self.pools(), level as nat, node as int, c),
            decreases level,
        {
            let s: usize = slot_of(self.levels[level], c);
            assert(node_fits(
                self.pools()[level as int][node as int],
                self.levels@,
                level as int,
                if level > 0 {
                    self.pools()[level - 1].len() as int
                } else {
                    0
                },
            ));
            match &self.pools[level][node] {
                Node::Leaf { values } => {
                    return values[s];
                },
                Node::Internal { children } => {
                    match children[s] {
                        Some(child) => {
                            node = child as usize;
                            level = level - 1;
                        },
                        None => {
                            return None;
                        },
                    }
                },
            }
        }
    }

    /// Writes one cell of a node: the place of its node, or its value.
    fn write_child(&mut self, level: usize, node: usize, s: usize, child: u32)
        requires
            old(self).wf(),
            0 < level < old(self).levels().len(),
            node < old(self).pools()[level as int].len(),
            s < cells(old(self).levels()[level as int]),
            child < old(self).pools()[level - 1].len(),
            forall|n: int, t: int|
                0 <= n < old(self).pools()[level as int].len() ==> #[trigger] child_at(
                    old(self).pools()[level as int][n],
                    t,
                ) != Some(child),
        ensures
            final(self).wf(),
            final(self).levels() == old(self).levels(),
            final(self).pools().len() == old(self).pools().len(),
            forall|l: int|
                0 <= l < old(self).pools().len() && l != level ==> #[trigger] final(self).pools()[l]
                    == old(self).pools()[l],
            final(self).pools()[level as int].len() == old(self).pools()[level as int].len(),
            forall|n: int|
                0 <= n < old(self).pools()[level as int].len() && n != node
                    ==> #[trigger] final(self).pools()[level as int][n]
                    == old(self).pools()[level as int][n],
            forall|t: int|
                #[trigger] child_at(final(self).pools()[level as int][node as int], t) == (if t == s {
                    Some(child)
                } else {
                    child_at(old(self).pools()[level as int][node as int], t)
                }),
    {
        let ghost before = self.pools();
        proof {
            assert(node_fits(
                before[level as int][node as int],
                self.levels@,
                level as int,
                before[level - 1].len() as int,
            ));
        }
        match &mut self.pools[level][node] {
            Node::Internal { children } => {
                children[s] = Some(child);
            },
            Node::Leaf { values } => {},
        }
        proof {
            let after = self.pools();
            assert forall|l: int| 0 <= l < before.len() && l != level implies #[trigger] after[l]
                == before[l] by {
                assert(after[l] =~= before[l]);
            }
            lemma_child_written(self.levels@, before, after, level as int, node as int, s as int, child);
        }
    }
}

proof fn lemma_child_written<V>(
    levels: Seq<Level>,
    before: Pools<V>,
    after: Pools<V>,
    level: int,
    node: int,
    s: int,
    child: u32,
)
    requires
        levels_ok(levels),
        pools_ok(levels, before),
        0 < level < levels.len(),
        0 <= node < before[level].len(),
        child < before[level - 1].len(),
        forall|n: int, t: int|
            0 <= n < before[level].len() ==> #[trigger] child_at(before[level][n], t) != Some(child),
        after.len() == before.len(),
        forall|l: int| 0 <= l < before.len() && l != level ==> #[trigger] after[l] == before[l],
        after[level].len() == before[level].len(),
        forall|n: int|
            0 <= n < before[level].len() && n != node ==> #[trigger] after[level][n]
                == before[level][n],
        before[level][node] matches NodeView::Internal { children } && 0 <= s < children.len()
            && after[level][node] == (NodeView::<V>::Internal {
            children: children.update(s, Some(child)),
        }),
    ensures
        pools_ok(levels, after),
        forall|t: int|
            #[trigger] child_at(after[level][node], t) == (if t == s {
                Some(child)
            } else {
                child_at(before[level][node], t)
            }),
{
    assert forall|l: int, n: int| 0 <= l < after.len() && 0 <= n < after[l].len() implies node_fits(
        #[trigger] after[l][n],
        levels,
        l,
        if l > 0 {
            after[l - 1].len() as int
        } else {
            0
        },
    ) by {
        assert(node_fits(
            before[l][n],
            levels,
            l,
            if l > 0 {
                before[l - 1].len() as int
            } else {
                0
            },
        ));
        if l == level && n != node {
            assert(after[level][n] == before[level][n]);
        } else if l != level {
            assert(after[l] == before[l]);
        }
    }
    assert forall|l: int| 0 <= l < after.len() implies owned(#[trigger] after[l]) by {
        assert(owned(before[l]));
        if l == level {
            assert forall|a: int, x: int, b: int, y: int|
                0 <= a < after[l].len() && 0 <= b < after[l].len() && (a != b || x != y)
                    && #[trigger] child_at(after[l][a], x) is Some && #[trigger] child_at(
                    after[l][b],
                    y,
                ) is Some implies child_at(after[l][a], x) != child_at(after[l][b], y) by {
                if a != node {
                    assert(after[level][a] == before[level][a]);
                }
                if b != node {
                    assert(after[level][b] == before[level][b]);
                }
                assert(child_at(before[level][a], x) != Some(child));
                assert(child_at(before[level][b], y) != Some(child));
                if !(a == node && x == s) && !(b == node && y == s) {
                    assert(child_at(before[l][a], x) is Some);
                    assert(child_at(before[l][b], y) is Some);
                }
            }
        }
    }
}

/// Values under nodes of a level do not depend on the levels above, nor on nodes that were added.
proof fn lemma_find_same<V>(
    levels: Seq<Level>,
    before: Pools<V>,
    after: Pools<V>,
    level: nat,
    node: int,
    d: UVec3,
)
    requires
        levels_ok(levels),
        pools_ok(levels, before),
        after.len() == before.len(),
        level < levels.len(),
        0 <= node < before[level as int].len(),
        forall|l: int, n: int|
            0 <= l <= level && 0 <= n < before[l].len() ==> #[trigger] after[l][n] == before[l][n],
    ensures
        find(levels, after, level, node, d) == find(levels, before, level, node, d),
    decreases level,
{
    assert(after[level as int][node] == before[level as int][node]);
    if level > 0 {
        let s = slot(levels[level as int], d);
        assert(node_fits(
            before[level as int][node],
            levels,
            level as int,
            before[level - 1].len() as int,
        ));
        if let Some(child) = child_at(before[level as int][node], s) {
            lemma_find_same(levels, before, after, (level - 1) as nat, child as int, d);
        }
    }
}

impl<V: Copy> Tree<V> {
    fn write_value(&mut self, node: usize, s: usize, value: Option<V>)
        requires
            old(self).wf(),
            node < old(self).pools()[0].len(),
            s < cells(old(self).levels()[0]),
        ensures
            final(self).wf(),
            final(self).levels() == old(self).levels(),
            final(self).pools().len() == old(self).pools().len(),
            forall|l: int|
                0 < l < old(self).pools().len() ==> #[trigger] final(self).pools()[l]
                    == old(self).pools()[l],
            final(self).pools()[0].len() == old(self).pools()[0].len(),
            forall|n: int|
                0 <= n < old(self).pools()[0].len() && n != node
                    ==> #[trigger] final(self).pools()[0][n] == old(self).pools()[0][n],
            forall|t: int|
                #[trigger] leaf_value(final(self).pools()[0][node as int], t) == (if t == s {
                    value
                } else {
                    leaf_value(old(self).pools()[0][node as int], t)
                }),
    {
        let ghost before = self.pools();
        proof {
            assert(node_fits(before[0][node as int], self.levels@, 0, 0));
        }
        match &mut self.pools[0][node] {
            Node::Internal { children } => {},
            Node::Leaf { values } => {
                values[s] = value;
            },
        }
        proof {
            let after = self.pools();
            assert forall|l: int| 0 < l < before.len() implies #[trigger] after[l] == before[l] by {
                assert(after[l] =~= before[l]);
            }
            assert forall|l: int, n: int| 0 <= l < after.len() && 0 <= n < after[l].len() implies node_fits(
                #[trigger] after[l][n],
                self.levels@,
                l,
                if l > 0 {
                    after[l - 1].len() as int
                } else {
                    0
                },
            ) by {
                assert(node_fits(
                    before[l][n],
                    self.levels@,
                    l,
                    if l > 0 {
                        before[l - 1].len() as int
                    } else {
                        0
                    },
                ));
                if l > 0 {
                    assert(after[l] == before[l]);
                }
            }
            assert forall|l: int| 0 <= l < after.len() implies owned(#[trigger] after[l]) by {
                assert(owned(before[l]));
                if l == 0 {
                    assert forall|a: int, x: int| 0 <= a < after[l].len() implies #[trigger] child_at(
                        after[l][a],
                        x,
                    ) is None by {
                        assert(node_fits(after[0][a], self.levels@, 0, 0));
                    }
                }
            }
        }
    }

    /// Sets the value of the voxels on the path of a voxel under a node.
    fn set_under(&mut self, level: usize, node: usize, c: UVec3, value: Option<V>)
        requires
            old(self).wf(),
            level < old(self).levels().len(),
            node < old(self).pools()[level as int].len(),
            has_room(old(self).pools(), level as int),
        ensures
            final(self).wf(),
            final(self).levels() == old(self).levels(),
            final(self).pools().len() == old(self).pools().len(),
            forall|l: int|
                level < l < old(self).pools().len() ==> #[trigger] final(self).pools()[l]
                    == old(self).pools()[l],
            final(self).pools()[level as int].len() == old(self).pools()[level as int].len(),
            forall|l: int|
                0 <= l < level ==> old(self).pools()[l].len() <= (
                #[trigger] final(self).pools()[l]).len() <= old(self).pools()[l].len() + 1,
            forall|n: int|
                0 <= n < old(self).pools()[level as int].len() && n != node
                    ==> #[trigger] final(self).pools()[level as int][n]
                    == old(self).pools()[level as int][n],
            path_set(
                old(self).levels(),
                old(self).pools(),
                final(self).pools(),
                level as nat,
                node as int,
                c,
                value,
            ),
            leaf_set(
                old(self).levels(),
                old(self).pools(),
                final(self).pools(),
                level as nat,
                node as int,
                c,
                value,
            ),
            path_only(
                old(self).levels(),
                old(self).pools(),
                final(self).pools(),
                level as nat,
                node as int,
                c,
            ),
        decreases level,
    {
        let ghost levels = self.levels@;
        let ghost before = self.pools();
        let s: usize = slot_of(self.levels[level], c);
        if level == 0 {
            self.write_value(node, s, value);
            return;
        }
        proof {
            assert(node_fits(
                before[level as int][node as int],
                levels,
                level as int,
                before[level - 1].len() as int,
            ));
        }
        let found: Option<u32> = match &self.pools[level][node] {
            Node::Internal { children } => children[s],
            Node::Leaf { values } => None,
        };
        assert(found == child_at(before[level as int][node as int], s as int));
        let child: u32 = match found {
            Some(child) => child,
            None => {
                if value.is_none() {
                    proof {
                        lemma_nothing_to_clear(levels, before, level as nat, node as int, c, value);
                    }
                    return;
                }
                self.alloc_and_link(level, node, s)
            },
        };
        let ghost middle = self.pools();
        self.set_under(level - 1, child as usize, c, value);
        proof {
            lemma_set_through(
                levels,
                before,
                middle,
                self.pools(),
                level as nat,
                node as int,
                s as int,
                child as int,
                c,
                value,
            );
            lemma_leaf_through(
                levels,
                before,
                middle,
                self.pools(),
                level as nat,
                node as int,
                s as int,
                child as int,
                c,
                value,
            );
            lemma_path_through(
                levels,
                before,
                middle,
                self.pools(),
                level as nat,
                node as int,
                s as int,
                child as int,
                c,
            );
        }
    }

    /// Adds a node for a cell that has none.
    fn alloc_and_link(&mut self, level: usize, node: usize, s: usize) -> (r: u32)
        requires
            old(self).wf(),
            0 < level < old(self).levels().len(),
            node < old(self).pools()[level as int].len(),
            s < cells(old(self).levels()[level as int]),
            child_at(old(self).pools()[level as int][node as int], s as int) is None,
            old(self).pools()[level - 1].len() < u32::MAX,
        ensures
            final(self).wf(),
            final(self).levels() == old(self).levels(),
            final(self).pools().len() == old(self).pools().len(),
            r == old(self).pools()[level - 1].len(),
            final(self).pools()[level - 1] == old(self).pools()[level - 1].push(
                blank(old(self).levels(), level - 1),
            ),
            forall|l: int|
                0 <= l < old(self).pools().len() && l != level && l != level - 1
                    ==> #[trigger] final(self).pools()[l] == old(self).pools()[l],
            final(self).pools()[level as int].len() == old(self).pools()[level as int].len(),
            forall|n: int|
                0 <= n < old(self).pools()[level as int].len() && n != node
                    ==> #[trigger] final(self).pools()[level as int][n]
                    == old(self).pools()[level as int][n],
            forall|t: int|
                #[trigger] child_at(final(self).pools()[level as int][node as int], t) == (if t == s {
                    Some(r)
                } else {
                    child_at(old(self).pools()[level as int][node as int], t)
                }),
    {
        let ghost before = self.pools();
        let child: u32 = self.alloc_node(level - 1);
        proof {
            let grown = self.pools();
            assert(grown[level as int] == before[level as int]);
            assert forall|n: int, t: int|
                0 <= n < grown[level as int].len() implies #[trigger] child_at(
                grown[level as int][n],
                t,
            ) != Some(child) by {
                assert(node_fits(
                    before[level as int][n],
                    self.levels@,
                    level as int,
                    before[level - 1].len() as int,
                ));
            }
        }
        self.write_child(level, node, s, child);
        child
    }
}

/// Where a cell has no node, there are no values to clear.
proof fn lemma_nothing_to_clear<V>(
    levels: Seq<Level>,
    pools: Pools<V>,
    level: nat,
    node: int,
    c: UVec3,
    value: Option<V>,
)
    requires
        level > 0,
        value is None,
        child_at(pools[level as int][node], slot(levels[level as int], c)) is None,
    ensures
        path_set(levels, pools, pools, level, node, c, value),
{
}

/// Setting a value under the node of a cell sets it under the node that the cell is of.
proof fn lemma_set_through<V>(
    levels: Seq<Level>,
    before: Pools<V>,
    middle: Pools<V>,
    after: Pools<V>,
    level: nat,
    node: int,
    s: int,
    child: int,
    c: UVec3,
    value: Option<V>,
)
    requires
        levels_ok(levels),
        pools_ok(levels, before),
        pools_ok(levels, middle),
        0 < level < levels.len(),
        0 <= node < before[level as int].len(),
        s == slot(levels[level as int], c),
        before.len() == middle.len() == after.len(),
        after[level as int] == middle[level as int],
        middle[level as int].len() == before[level as int].len(),
        forall|n: int|
            0 <= n < before[level as int].len() && n != node ==> #[trigger] middle[level as int][n]
                == before[level as int][n],
        forall|t: int|
            t != s ==> #[trigger] child_at(middle[level as int][node], t) == child_at(
                before[level as int][node],
                t,
            ),
        child_at(middle[level as int][node], s) == Some(child as u32),
        0 <= child < middle[level - 1].len(),
        child <= u32::MAX,
        before[level - 1].len() <= middle[level - 1].len(),
        forall|l: int, n: int|
            0 <= l < level && 0 <= n < before[l].len() ==> #[trigger] middle[l][n] == before[l][n],
        child_at(before[level as int][node], s) matches Some(known) ==> known == child && middle
            == before,
        child_at(before[level as int][node], s) is None ==> child == before[level - 1].len()
            && middle[level - 1][child] == blank::<V>(levels, level - 1),
        path_set(levels, middle, after, (level - 1) as nat, child, c, value),
    ensures
        path_set(levels, before, after, level, node, c, value),
{
    let below = (level - 1) as nat;
    assert forall|n: int, d: UVec3|
        0 <= n < before[level as int].len() implies #[trigger] find(levels, after, level, n, d) == (
    if n == node && same_path(levels, level, c, d) {
        value
    } else {
        find(levels, before, level, n, d)
    }) by {
        let t = slot(levels[level as int], d);
        assert(node_fits(
            middle[level as int][n],
            levels,
            level as int,
            middle[level - 1].len() as int,
        ));
        assert(node_fits(
            before[level as int][n],
            levels,
            level as int,
            before[level - 1].len() as int,
        ));
        if n == node && t == s {
            assert(find(levels, after, level, n, d) == find(levels, after, below, child, d));
            assert(find(levels, after, below, child, d) == (if same_path(levels, below, c, d) {
                value
            } else {
                find(levels, middle, below, child, d)
            }));
            if child_at(before[level as int][node], s) is None {
                lemma_blank_is_empty(levels, middle, below, child, d);
            }
        } else {
            match child_at(middle[level as int][n], t) {
                Some(other) => {
                    assert(owned(middle[level as int]));
                    assert(child_at(middle[level as int][node], s) is Some);
                    assert(other != child);
                    assert(child_at(before[level as int][n], t) == Some(other));
                    assert(find(levels, after, below, other as int, d) == find(
                        levels,
                        middle,
                        below,
                        other as int,
                        d,
                    ));
                    lemma_find_same(levels, before, middle, below, other as int, d);
                },
                None => {},
            }
        }
    }
}

/// Leaves under nodes of a level do not depend on the levels above, nor on nodes that were added.
proof fn lemma_leaf_same<V>(
    levels: Seq<Level>,
    before: Pools<V>,
    after: Pools<V>,
    level: nat,
    node: int,
    d: UVec3,
)
    requires
        levels_ok(levels),
        pools_ok(levels, before),
        after.len() == before.len(),
        level < levels.len(),
        0 <= node < before[level as int].len(),
        forall|l: int, n: int|
            0 <= l <= level && 0 <= n < before[l].len() ==> #[trigger] after[l][n] == before[l][n],
    ensures
        leaf_of(levels, after, level, node, d) == leaf_of(levels, before, level, node, d),
    decreases level,
{
    assert(after[level as int][node] == before[level as int][node]);
    if level > 0 {
        let s = slot(levels[level as int], d);
        assert(node_fits(
            before[level as int][node],
            levels,
            level as int,
            before[level - 1].len() as int,
        ));
        if let Some(child) = child_at(before[level as int][node], s) {
            lemma_leaf_same(levels, before, after, (level - 1) as nat, child as int, d);
        }
    }
}

/// The leaf that comes under the node of a cell comes under the node that the cell is of.
proof fn lemma_leaf_through<V>(
    levels: Seq<Level>,
    before: Pools<V>,
    middle: Pools<V>,
    after: Pools<V>,
    level: nat,
    node: int,
    s: int,
    child: int,
    c: UVec3,
    value: Option<V>,
)
    requires
        levels_ok(levels),
        pools_ok(levels, before),
        pools_ok(levels, middle),
        0 < level < levels.len(),
        0 <= node < before[level as int].len(),
        s == slot(levels[level as int], c),
        before.len() == middle.len() == after.len(),
        after[level as int] == middle[level as int],
        middle[level as int].len() == before[level as int].len(),
        forall|n: int|
            0 <= n < before[level as int].len() && n != node ==> #[trigger] middle[level as int][n]
                == before[level as int][n],
        forall|t: int|
            t != s ==> #[trigger] child_at(middle[level as int][node], t) == child_at(
                before[level as int][node],
                t,
            ),
        child_at(middle[level as int][node], s) == Some(child as u32),
        0 <= child < middle[level - 1].len(),
        child <= u32::MAX,
        before[level - 1].len() <= middle[level - 1].len(),
        forall|l: int, n: int|
            0 <= l < level && 0 <= n < before[l].len() ==> #[trigger] middle[l][n] == before[l][n],
        child_at(before[level as int][node], s) matches Some(known) ==> known == child && middle
            == before,
        child_at(before[level as int][node], s) is None ==> child == before[level - 1].len()
            && middle[level - 1][child] == blank::<V>(levels, level - 1),
        child_at(before[level as int][node], s) is None ==> value is Some,
        level > 1 ==> middle[0].len() == before[0].len(),
        leaf_set(levels, middle, after, (level - 1) as nat, child, c, value),
    ensures
        leaf_set(levels, before, after, level, node, c, value),
{
    let below = (level - 1) as nat;
    assert forall|n: int, d: UVec3|
        0 <= n < before[level as int].len() implies #[trigger] leaf_of(levels, after, level, n, d)
        == leaf_after(
        levels,
        before,
        level,
        n,
        d,
        n == node && value is Some && same_route(levels, level, c, d),
    ) by {
        let t = slot(levels[level as int], d);
        assert(node_fits(
            middle[level as int][n],
            levels,
            level as int,
            middle[level - 1].len() as int,
        ));
        assert(node_fits(
            before[level as int][n],
            levels,
            level as int,
            before[level - 1].len() as int,
        ));
        if n == node && t == s {
            assert(leaf_of(levels, after, level, n, d) == leaf_of(levels, after, below, child, d));
            assert(leaf_of(levels, after, below, child, d) == leaf_after(
                levels,
                middle,
                below,
                child,
                d,
                value is Some && same_route(levels, below, c, d),
            ));
            assert(leaf_of(levels, before, level, n, d) == (match child_at(
                before[level as int][node],
                s,
            ) {
                Some(known) => leaf_of(levels, before, below, known as int, d),
                None => None,
            }));
            if child_at(before[level as int][node], s) is None && below > 0 {
                assert(child_at(middle[level - 1][child], slot(levels[level - 1], d)) is None);
            }
        } else {
            match child_at(middle[level as int][n], t) {
                Some(other) => {
                    assert(owned(middle[level as int]));
                    assert(child_at(middle[level as int][node], s) is Some);
                    assert(other != child);
                    assert(child_at(before[level as int][n], t) == Some(other));
                    assert(leaf_of(levels, after, below, other as int, d) == leaf_of(
                        levels,
                        middle,
                        below,
                        other as int,
                        d,
                    ));
                    lemma_leaf_same(levels, before, middle, below, other as int, d);
                },
                None => {},
            }
        }
    }
}

/// The nodes that change under the node of a cell are on the path from the node that the cell is of.
proof fn lemma_path_through<V>(
    levels: Seq<Level>,
    before: Pools<V>,
    middle: Pools<V>,
    after: Pools<V>,
    level: nat,
    node: int,
    s: int,
    child: int,
    c: UVec3,
)
    requires
        levels_ok(levels),
        pools_ok(levels, before),
        pools_ok(levels, middle),
        0 < level < levels.len(),
        0 <= node < before[level as int].len(),
        s == slot(levels[level as int], c),
        before.len() == middle.len() == after.len(),
        after[level as int] == middle[level as int],
        middle[level as int].len() == before[level as int].len(),
        forall|n: int|
            0 <= n < before[level as int].len() && n != node ==> #[trigger] middle[level as int][n]
                == before[level as int][n],
        forall|t: int|
            t != s ==> #[trigger] child_at(middle[level as int][node], t) == child_at(
                before[level as int][node],
                t,
            ),
        child_at(middle[level as int][node], s) == Some(child as u32),
        0 <= child < middle[level - 1].len(),
        child <= u32::MAX,
        before[level - 1].len() <= middle[level - 1].len(),
        forall|l: int, n: int|
            0 <= l < level && 0 <= n < before[l].len() ==> #[trigger] middle[l][n] == before[l][n],
        child_at(before[level as int][node], s) matches Some(known) ==> known == child && middle
            == before,
        child_at(before[level as int][node], s) is None ==> child == before[level - 1].len()
            && middle[level - 1][child] == blank::<V>(levels, level - 1),
        forall|l: int|
            0 <= l < level - 1 ==> (#[trigger] middle[l]).len() == before[l].len(),
        middle[level - 1].len() <= before[level - 1].len() + 1,
        path_only(levels, middle, after, (level - 1) as nat, child, c),
    ensures
        path_only(levels, before, after, level, node, c),
{
    assert forall|l: nat, n: int| l <= level implies #[trigger] kept(
        before,
        after,
        l as int,
        n,
        node_at(levels, after, level, node, c, l),
    ) by {
        if l < level {
            let on_path = node_at(levels, after, (level - 1) as nat, child, c, l);
            assert(node_at(levels, after, level, node, c, l) == on_path);
            assert(kept(middle, after, l as int, n, on_path));
            if 0 <= n < after[l as int].len() && on_path != Some(n) {
                assert(after[l as int][n] == middle[l as int][n]);
                if l < level - 1 {
                    assert(middle[l as int].len() == before[l as int].len());
                }
                if n >= before[l as int].len() {
                    assert(l == level - 1);
                    assert(on_path == Some(child));
                }
                assert(middle[l as int][n] == before[l as int][n]);
            }
        } else if 0 <= n < after[l as int].len() && n != node {
            assert(middle[l as int][n] == before[l as int][n]);
        }
    }
}

/// There are no values under a node that nothing is noted in.
proof fn lemma_blank_is_empty<V>(
    levels: Seq<Level>,
    pools: Pools<V>,
    level: nat,
    node: int,
    d: UVec3,
)
    requires
        level < levels.len(),
        pools[level as int][node] == blank::<V>(levels, level as int),
    ensures
        find(levels, pools, level, node, d) is None,
{
}

/// The place of a cell determines where it lies along each axis.
proof fn lemma_slot_digits(level: Level, c: UVec3, d: UVec3)
    requires
        1 <= level.fan,
        1 <= level.cell,
        slot(level, c) == slot(level, d),
    ensures
        (c.x / level.cell) % level.fan == (d.x / level.cell) % level.fan,
        (c.y / level.cell) % level.fan == (d.y / level.cell) % level.fan,
        (c.z / level.cell) % level.fan == (d.z / level.cell) % level.fan,
{
    let n = level.fan as int;
    let cx = ((c.x / level.cell) % level.fan) as int;
    let cy = ((c.y / level.cell) % level.fan) as int;
    let cz = ((c.z / level.cell) % level.fan) as int;
    let dx = ((d.x / level.cell) % level.fan) as int;
    let dy = ((d.y / level.cell) % level.fan) as int;
    let dz = ((d.z / level.cell) % level.fan) as int;
    vstd::arithmetic::div_mod::lemma_fundamental_div_mod_converse(slot(level, c), n, cx * n + cy, cz);
    vstd::arithmetic::div_mod::lemma_fundamental_div_mod_converse(slot(level, d), n, dx * n + dy, dz);
    vstd::arithmetic::div_mod::lemma_fundamental_div_mod_converse(cx * n + cy, n, cx, cy);
    vstd::arithmetic::div_mod::lemma_fundamental_div_mod_converse(dx * n + dy, n, dx, dy);
}

proof fn lemma_axis_path(a: u32, b: u32, cell: u32, fan: u32)
    requires
        1 <= cell,
        1 <= fan,
        a as int % cell as int == b as int % cell as int,
        (a / cell) % fan == (b / cell) % fan,
    ensures
        a as int % (cell * fan) == b as int % (cell * fan),
{
    vstd::arithmetic::div_mod::lemma_mod_breakdown(a as int, cell as int, fan as int);
    vstd::arithmetic::div_mod::lemma_mod_breakdown(b as int, cell as int, fan as int);
}

/// Voxels on the same path lie at the same place in the cubes of the nodes of a level.
proof fn lemma_same_path(levels: Seq<Level>, level: nat, c: UVec3, d: UVec3)
    requires
        levels_ok(levels),
        level < levels.len(),
        same_path(levels, level, c, d),
    ensures
        ({
            let width = levels[level as int].cell * levels[level as int].fan;
            &&& c.x as int % width == d.x as int % width
            &&& c.y as int % width == d.y as int % width
            &&& c.z as int % width == d.z as int % width
        }),
    decreases level,
{
    let here = levels[level as int];
    lemma_slot_digits(here, c, d);
    if level > 0 {
        lemma_same_path(levels, (level - 1) as nat, c, d);
    }
    lemma_axis_path(c.x, d.x, here.cell, here.fan);
    lemma_axis_path(c.y, d.y, here.cell, here.fan);
    lemma_axis_path(c.z, d.z, here.cell, here.fan);
}

proof fn lemma_path_reflexive(levels: Seq<Level>, level: nat, c: UVec3)
    ensures
        same_path(levels, level, c, c),
    decreases level,
{
    if level > 0 {
        lemma_path_reflexive(levels, (level - 1) as nat, c);
    }
}

/// What becomes of a tree when the value of a voxel is set: the voxel has the value and every other
/// voxel keeps its own, the leaf of the voxel is added where there is none and a value is set, no
/// other leaf comes or goes, and only the nodes that the cells of the voxel lead to change.
pub open spec fn value_set<V: Copy>(
    before: Tree<V>,
    after: Tree<V>,
    c: UVec3,
    value: Option<V>,
) -> bool {
    &&& after.levels() == before.levels()
    &&& forall|l: int|
        0 <= l < before.pools().len() ==> before.pools()[l].len() <= (
        #[trigger] after.pools()[l]).len() <= before.pools()[l].len() + 1
    &&& forall|d: UVec3|
        before.covers(d) ==> #[trigger] after.value(d) == (if d == c {
            value
        } else {
            before.value(d)
        })
    &&& forall|d: UVec3|
        before.covers(d) ==> #[trigger] after.leaf_at(d) == (if value is Some && before.leaf_at(
            d,
        ) is None && leaf_place(before.levels(), d) == leaf_place(before.levels(), c) {
            Some(before.pools()[0].len() as int)
        } else {
            before.leaf_at(d)
        })
    &&& after.leaf_places() == (if value is Some {
        before.leaf_places().insert(leaf_place(before.levels(), c))
    } else {
        before.leaf_places()
    })
    &&& path_only(
        before.levels(),
        before.pools(),
        after.pools(),
        (before.levels().len() - 1) as nat,
        0,
        c,
    )
}

impl<V: Copy> Tree<V> {
    /// Sets the value of a voxel, or takes it away.
    pub fn set_value(&mut self, c: UVec3, value: Option<V>)
        requires
            old(self).wf(),
            old(self).covers(c),
            has_room(old(self).pools(), old(self).levels().len() - 1),
        ensures
            final(self).wf(),
            value_set(*old(self), *final(self), c, value),
    {
        let top: usize = self.levels.len() - 1;
        let ghost before = *self;
        assert(self.pools()[top as int].len() == 1);
        self.set_under(top, 0, c, value);
        proof {
            let levels = self.levels@;
            assert forall|d: UVec3| before.covers(d) implies #[trigger] self.value(d) == (if d == c {
                value
            } else {
                before.value(d)
            }) by {
                lemma_path_reflexive(levels, top as nat, c);
                if same_path(levels, top as nat, c, d) {
                    lemma_same_path(levels, top as nat, c, d);
                    let width = before.width();
                    vstd::arithmetic::div_mod::lemma_small_mod(c.x as nat, width as nat);
                    vstd::arithmetic::div_mod::lemma_small_mod(c.y as nat, width as nat);
                    vstd::arithmetic::div_mod::lemma_small_mod(c.z as nat, width as nat);
                    vstd::arithmetic::div_mod::lemma_small_mod(d.x as nat, width as nat);
                    vstd::arithmetic::div_mod::lemma_small_mod(d.y as nat, width as nat);
                    vstd::arithmetic::div_mod::lemma_small_mod(d.z as nat, width as nat);
                }
            }
            lemma_leaves_set(before, *self, c, value);
        }
    }
}

/// What a hierarchy divides cubes into: the levels from the root down, each by the logarithm of the
/// number of cells along an axis, make levels from the leaves up.
pub open spec fn levels_of(hierarchy: Seq<u32>) -> Seq<Level>
    decreases hierarchy.len(),
{
    if hierarchy.len() == 0 {
        Seq::empty()
    } else {
        let below = levels_of(hierarchy.skip(1));
        below.push(
            Level {
                fan: fan_of(hierarchy[0]),
                cell: if below.len() == 0 {
                    1
                } else {
                    (below.last().cell * below.last().fan) as u32
                },
            },
        )
    }
}

/// The number of cells along an axis.
pub open spec fn fan_of(log2: u32) -> u32 {
    vstd::arithmetic::power2::pow2(log2 as nat) as u32
}

/// The logarithm of the number of voxels along an axis.
pub open spec fn bits_of(hierarchy: Seq<u32>) -> nat
    decreases hierarchy.len(),
{
    if hierarchy.len() == 0 {
        0
    } else {
        hierarchy[0] as nat + bits_of(hierarchy.skip(1))
    }
}

/// Whether a tree can have a hierarchy: the cells of each node and the voxels along an axis can be
/// counted.
pub open spec fn hierarchy_ok(hierarchy: Seq<u32>) -> bool {
    &&& hierarchy.len() > 0
    &&& forall|i: int| 0 <= i < hierarchy.len() ==> #[trigger] hierarchy[i] <= 8
    &&& bits_of(hierarchy) < 32
}

proof fn lemma_fan(log2: u32)
    requires
        log2 <= 8,
    ensures
        1 <= fan_of(log2) <= 256,
        fan_of(log2) == vstd::arithmetic::power2::pow2(log2 as nat),
{
    vstd::arithmetic::power2::lemma2_to64();
    vstd::arithmetic::power2::lemma_pow2_pos(log2 as nat);
    if log2 < 8 {
        vstd::arithmetic::power2::lemma_pow2_strictly_increases(log2 as nat, 8);
    }
}

proof fn lemma_levels_of(hierarchy: Seq<u32>)
    requires
        hierarchy_ok(hierarchy),
    ensures
        levels_ok(levels_of(hierarchy)),
        levels_of(hierarchy).len() == hierarchy.len(),
        levels_of(hierarchy).last().cell * levels_of(hierarchy).last().fan
            == vstd::arithmetic::power2::pow2(bits_of(hierarchy)),
    decreases hierarchy.len(),
{
    let rest = hierarchy.skip(1);
    let below = levels_of(rest);
    let levels = levels_of(hierarchy);
    lemma_fan(hierarchy[0]);
    vstd::arithmetic::power2::lemma2_to64();
    vstd::arithmetic::power2::lemma_pow2_strictly_increases(bits_of(hierarchy), 32);
    assert(vstd::arithmetic::power2::pow2(32) == 0x1_0000_0000);
    if rest.len() == 0 {
        assert(levels[0] == (Level { fan: fan_of(hierarchy[0]), cell: 1 }));
        assert(bits_of(rest) == 0);
        assert(levels.last() == levels[0]);
        let top = levels[0];
        assert(top.cell * top.fan == top.fan) by (nonlinear_arith)
            requires
                top.cell == 1,
        ;
    } else {
        assert forall|i: int| 0 <= i < rest.len() implies #[trigger] rest[i] <= 8 by {
            assert(rest[i] == hierarchy[i + 1]);
        }
        lemma_levels_of(rest);
        vstd::arithmetic::power2::lemma_pow2_adds(bits_of(rest), hierarchy[0] as nat);
        if hierarchy[0] > 0 {
            vstd::arithmetic::power2::lemma_pow2_strictly_increases(
                bits_of(rest),
                bits_of(hierarchy),
            );
        }
        vstd::arithmetic::power2::lemma_pow2_pos(bits_of(rest));
        let top = levels.last();
        assert(top.cell == below.last().cell * below.last().fan);
        assert(top.cell == vstd::arithmetic::power2::pow2(bits_of(rest)));
        assert(top.fan == vstd::arithmetic::power2::pow2(hierarchy[0] as nat));
        assert(top.cell * top.fan == vstd::arithmetic::power2::pow2(bits_of(rest))
            * vstd::arithmetic::power2::pow2(hierarchy[0] as nat));
        assert forall|i: int| 0 <= i < levels.len() implies 1 <= (#[trigger] levels[i]).fan <= 256
            && 1 <= levels[i].cell by {
            if i < below.len() {
                assert(levels[i] == below[i]);
            }
        }
        assert forall|i: int| 0 < i < levels.len() implies (#[trigger] levels[i]).cell == levels[i
            - 1].cell * levels[i - 1].fan by {
            if i < below.len() {
                assert(levels[i] == below[i]);
                assert(levels[i - 1] == below[i - 1]);
            } else {
                assert(levels[i - 1] == below.last());
            }
        }
        assert(levels[0] == below[0]);
    }
}

fn fan(log2: u32) -> (r: u32)
    requires
        log2 <= 8,
    ensures
        r == fan_of(log2),
{
    let mut r: u32 = 1;
    let mut i: u32 = 0;
    proof {
        vstd::arithmetic::power2::lemma2_to64();
    }
    while i < log2
        invariant
            i <= log2 <= 8,
            r == vstd::arithmetic::power2::pow2(i as nat),
            r <= 256,
        decreases log2 - i,
    {
        proof {
            vstd::arithmetic::power2::lemma_pow2_unfold((i + 1) as nat);
            lemma_fan((i + 1) as u32);
        }
        r = r * 2;
        i += 1;
    }
    r
}

impl<V: Copy> Tree<V> {
    /// A tree without values. The hierarchy is given from the root down, each level by the
    /// logarithm of the number of cells of a node along an axis.
    pub fn new(hierarchy: &[u32]) -> (r: Tree<V>)
        requires
            hierarchy_ok(hierarchy@),
        ensures
            r.wf(),
            r.levels() == levels_of(hierarchy@),
            r.width() == vstd::arithmetic::power2::pow2(bits_of(hierarchy@)),
            forall|l: int| 0 <= l < r.pools().len() - 1 ==> (#[trigger] r.pools()[l]).len() == 0,
            r.pools().last() == seq![blank::<V>(r.levels(), r.levels().len() - 1)],
            forall|c: UVec3| #[trigger] r.value(c) is None,
    {
        let mut levels: Vec<Level> = Vec::new();
        let mut i: usize = hierarchy.len();
        assert(hierarchy@.skip(i as int).len() == 0);
        while i > 0
            invariant
                i <= hierarchy@.len(),
                hierarchy_ok(hierarchy@),
                levels@ == levels_of(hierarchy@.skip(i as int)),
                bits_of(hierarchy@.skip(i as int)) <= bits_of(hierarchy@),
            decreases i,
        {
            i -= 1;
            let ghost rest = hierarchy@.skip(i as int);
            proof {
                assert(rest.skip(1) =~= hierarchy@.skip(i + 1));
                assert(rest[0] == hierarchy@[i as int]);
                lemma_suffix(hierarchy@, i as int);
                assert forall|k: int| 0 <= k < rest.len() implies #[trigger] rest[k] <= 8 by {
                    assert(rest[k] == hierarchy@[i + k]);
                }
                lemma_levels_of(rest);
                if rest.skip(1).len() > 0 {
                    assert(levels_of(rest).last().cell == levels@.last().cell * levels@.last().fan);
                    lemma_suffix(hierarchy@, i + 1);
                    let below = rest.skip(1);
                    assert forall|k: int| 0 <= k < below.len() implies #[trigger] below[k] <= 8 by {
                        assert(below[k] == hierarchy@[i + 1 + k]);
                    }
                    lemma_levels_of(below);
                }
            }
            let cell: u32 = if levels.len() == 0 {
                1
            } else {
                let below: Level = levels[levels.len() - 1];
                below.cell * below.fan
            };
            levels.push(Level { fan: fan(hierarchy[i]), cell });
        }
        proof {
            assert(hierarchy@.skip(0) =~= hierarchy@);
            lemma_levels_of(hierarchy@);
        }
        let mut pools: Vec<Vec<Node<V>>> = Vec::new();
        while levels.len() - pools.len() > 1
            invariant
                levels@.len() > 0,
                pools@.len() < levels@.len(),
                forall|l: int| 0 <= l < pools@.len() ==> (#[trigger] pools@[l])@.len() == 0,
            decreases levels@.len() - pools@.len(),
        {
            pools.push(Vec::new());
        }
        let mut root: Vec<Node<V>> = Vec::new();
        root.push(blank_node(&levels, levels.len() - 1));
        pools.push(root);
        let tree: Tree<V> = Tree { levels, pools };
        proof {
            let all = tree.pools();
            let top = levels@.len() - 1;
            assert(all.last() == all[top]);
            assert(all[top][0] == blank::<V>(levels@, top));
            assert forall|l: int, n: int|
                0 <= l < all.len() && 0 <= n < all[l].len() implies node_fits(
                #[trigger] all[l][n],
                levels@,
                l,
                if l > 0 {
                    all[l - 1].len() as int
                } else {
                    0
                },
            ) by {
                assert(l == top && n == 0);
                lemma_cell_index(0, 0, 0, levels@[top].fan as int);
            }
            assert forall|l: int| 0 <= l < all.len() implies owned(#[trigger] all[l]) by {
                assert forall|a: int, s: int| 0 <= a < all[l].len() implies #[trigger] child_at(
                    all[l][a],
                    s,
                ) is None by {
                    assert(l == top && a == 0);
                }
            }
            assert forall|c: UVec3| #[trigger] tree.value(c) is None by {
                lemma_blank_is_empty(levels@, all, top as nat, 0, c);
            }
        }
        tree
    }
}

proof fn lemma_suffix(hierarchy: Seq<u32>, i: int)
    requires
        0 <= i <= hierarchy.len(),
    ensures
        bits_of(hierarchy.skip(i)) <= bits_of(hierarchy),
    decreases i,
{
    if i == 0 {
        assert(hierarchy.skip(0) =~= hierarchy);
    } else {
        lemma_suffix(hierarchy, i - 1);
        assert(hierarchy.skip(i - 1).skip(1) =~= hierarchy.skip(i));
    }
}

/// The smallest voxel of cell `k` of a node whose smallest voxel is `base`.
pub open spec fn cell_base(level: Level, base: UVec3, k: int) -> UVec3 {
    let n = level.fan as int;
    UVec3 {
        x: (base.x + k / (n * n) * level.cell) as u32,
        y: (base.y + k / n % n * level.cell) as u32,
        z: (base.z + k % n * level.cell) as u32,
    }
}

/// The voxels with values in the first `count` cells of a node whose smallest voxel is `base`, in
/// the order of the cells.
pub open spec fn voxels_under<V>(
    levels: Seq<Level>,
    pools: Pools<V>,
    level: nat,
    node: int,
    base: UVec3,
    count: nat,
) -> Seq<UVec3>
    decreases level, count,
{
    if count == 0 {
        Seq::empty()
    } else {
        let k = count - 1;
        let before = voxels_under(levels, pools, level, node, base, k as nat);
        let at = cell_base(levels[level as int], base, k);
        if level == 0 {
            if leaf_value(pools[0][node], k) is Some {
                before.push(at)
            } else {
                before
            }
        } else {
            match child_at(pools[level as int][node], k) {
                Some(child) => before + voxels_under(
                    levels,
                    pools,
                    (level - 1) as nat,
                    child as int,
                    at,
                    cells(levels[level - 1]) as nat,
                ),
                None => before,
            }
        }
    }
}

/// Whether a voxel lies in the cube of a width whose smallest voxel is `base`.
pub open spec fn in_cube(base: UVec3, width: int, c: UVec3) -> bool {
    &&& base.x <= c.x < base.x + width
    &&& base.y <= c.y < base.y + width
    &&& base.z <= c.z < base.z + width
}

/// Whether a voxel can be the smallest of a node of a level.
pub open spec fn aligned(levels: Seq<Level>, level: int, base: UVec3) -> bool {
    let width = levels[level].cell * levels[level].fan;
    &&& base.x as int % width == 0
    &&& base.y as int % width == 0
    &&& base.z as int % width == 0
    &&& base.x + width <= u32::MAX
    &&& base.y + width <= u32::MAX
    &&& base.z + width <= u32::MAX
}

proof fn lemma_digits(k: int, n: int)
    requires
        1 <= n,
        0 <= k < n * n * n,
    ensures
        k == (k / (n * n) * n + k / n % n) * n + k % n,
        0 <= k / (n * n) < n,
        0 <= k / n % n < n,
        0 <= k % n < n,
{
    vstd::arithmetic::div_mod::lemma_fundamental_div_mod(k, n);
    let q = k / n;
    vstd::arithmetic::div_mod::lemma_fundamental_div_mod(q, n);
    vstd::arithmetic::div_mod::lemma_div_denominator(k, n, n);
    vstd::arithmetic::div_mod::lemma_div_pos_is_pos(k, n);
    vstd::arithmetic::div_mod::lemma_div_pos_is_pos(q, n);
    let i = q / n;
    let j = q % n;
    let m = k % n;
    assert((i * n + j) * n + m == k) by (nonlinear_arith)
        requires
            q == n * i + j,
            k == n * q + m,
    ;
    assert(i < n) by (nonlinear_arith)
        requires
            q == n * i + j,
            k == n * q + m,
            0 <= j,
            0 <= m,
            k < n * n * n,
            1 <= n,
    ;
}

/// Along one axis: where a voxel of an aligned node lies among its cells.
proof fn lemma_axis_digit(c: int, base: int, cell: int, fan: int)
    requires
        1 <= cell,
        1 <= fan,
        0 <= base,
        base % (cell * fan) == 0,
        base <= c < base + cell * fan,
    ensures
        ({
            let i = (c / cell) % fan;
            &&& 0 <= i < fan
            &&& base + i * cell <= c < base + i * cell + cell
            &&& forall|j: int|
                #![trigger j * cell]
                0 <= j < fan && base + j * cell <= c < base + j * cell + cell ==> j == i
            &&& base % cell == 0
        }),
{
    let w = cell * fan;
    assert(0 < w) by (nonlinear_arith)
        requires
            1 <= cell,
            1 <= fan,
            w == cell * fan,
    ;
    let q = base / w;
    vstd::arithmetic::div_mod::lemma_fundamental_div_mod(base, w);
    assert(base == w * q);
    let d = c - base;
    let i = d / cell;
    let r = d % cell;
    vstd::arithmetic::div_mod::lemma_fundamental_div_mod(d, cell);
    vstd::arithmetic::div_mod::lemma_div_pos_is_pos(d, cell);
    assert(i < fan) by (nonlinear_arith)
        requires
            d == cell * i + r,
            0 <= r,
            d < cell * fan,
            1 <= cell,
    ;
    assert(c == (q * fan + i) * cell + r) by (nonlinear_arith)
        requires
            c == base + d,
            base == (cell * fan) * q,
            d == cell * i + r,
    ;
    vstd::arithmetic::div_mod::lemma_fundamental_div_mod_converse(c, cell, q * fan + i, r);
    vstd::arithmetic::div_mod::lemma_fundamental_div_mod_converse(q * fan + i, fan, q, i);
    assert(i * cell == cell * i) by (nonlinear_arith);
    assert forall|j: int|
        #![trigger j * cell]
        0 <= j < fan && base + j * cell <= c < base + j * cell + cell implies j == i by {
        assert(j == i) by (nonlinear_arith)
            requires
                j * cell <= d < j * cell + cell,
                d == cell * i + r,
                0 <= r < cell,
                1 <= cell,
        ;
    }
    assert(base == (fan * q) * cell + 0) by (nonlinear_arith)
        requires
            base == (cell * fan) * q,
    ;
    vstd::arithmetic::div_mod::lemma_fundamental_div_mod_converse(base, cell, fan * q, 0);
}

/// A voxel of an aligned node lies in the cell of its place, and in no other.
proof fn lemma_cell_of(levels: Seq<Level>, level: int, base: UVec3, c: UVec3, k: int)
    requires
        levels_ok(levels),
        0 <= level < levels.len(),
        aligned(levels, level, base),
        0 <= k < cells(levels[level]),
    ensures
        in_cube(cell_base(levels[level], base, k), levels[level].cell as int, c) <==> in_cube(
            base,
            levels[level].cell * levels[level].fan,
            c,
        ) && slot(levels[level], c) == k,
        cell_base(levels[level], base, k).x == base.x + k / (levels[level].fan * levels[level].fan)
            * levels[level].cell,
        cell_base(levels[level], base, k).y == base.y + k / levels[level].fan as int
            % levels[level].fan as int * levels[level].cell,
        cell_base(levels[level], base, k).z == base.z + k % levels[level].fan as int
            * levels[level].cell,
{
    let here = levels[level];
    let n = here.fan as int;
    let cell = here.cell as int;
    lemma_digits(k, n);
    let i = k / (n * n);
    let j = k / n % n;
    let m = k % n;
    assert(0 <= i * cell && i * cell + cell <= cell * n) by (nonlinear_arith)
        requires
            0 <= i < n,
            1 <= cell,
    ;
    assert(0 <= j * cell && j * cell + cell <= cell * n) by (nonlinear_arith)
        requires
            0 <= j < n,
            1 <= cell,
    ;
    assert(0 <= m * cell && m * cell + cell <= cell * n) by (nonlinear_arith)
        requires
            0 <= m < n,
            1 <= cell,
    ;
    if in_cube(base, cell * n, c) {
        lemma_axis_digit(c.x as int, base.x as int, cell, n);
        lemma_axis_digit(c.y as int, base.y as int, cell, n);
        lemma_axis_digit(c.z as int, base.z as int, cell, n);
        let a = ((c.x / here.cell) % here.fan) as int;
        let b = ((c.y / here.cell) % here.fan) as int;
        let d = ((c.z / here.cell) % here.fan) as int;
        assert(slot(here, c) == (a * n + b) * n + d);
        if slot(here, c) == k {
            vstd::arithmetic::div_mod::lemma_fundamental_div_mod_converse(k, n, a * n + b, d);
            vstd::arithmetic::div_mod::lemma_fundamental_div_mod_converse(a * n + b, n, a, b);
            vstd::arithmetic::div_mod::lemma_div_denominator(k, n, n);
            assert(a == i && b == j && d == m);
        }
    }
}

proof fn lemma_cell_aligned(levels: Seq<Level>, level: int, base: UVec3, k: int)
    requires
        levels_ok(levels),
        0 < level < levels.len(),
        aligned(levels, level, base),
        0 <= k < cells(levels[level]),
    ensures
        aligned(levels, level - 1, cell_base(levels[level], base, k)),
{
    let here = levels[level];
    let n = here.fan as int;
    let cell = here.cell as int;
    lemma_cell_of(levels, level, base, base, k);
    lemma_digits(k, n);
    assert(1 <= cell * n) by (nonlinear_arith)
        requires
            1 <= cell,
            1 <= n,
    ;
    lemma_axis_digit(base.x as int, base.x as int, cell, n);
    lemma_axis_digit(base.y as int, base.y as int, cell, n);
    lemma_axis_digit(base.z as int, base.z as int, cell, n);
    lemma_axis_aligned(base.x as int, k / (n * n), cell, n);
    lemma_axis_aligned(base.y as int, k / n % n, cell, n);
    lemma_axis_aligned(base.z as int, k % n, cell, n);
}

proof fn lemma_axis_aligned(base: int, i: int, cell: int, n: int)
    requires
        1 <= cell,
        0 <= i < n,
        base % cell == 0,
    ensures
        (base + i * cell) % cell == 0,
        i * cell + cell <= cell * n,
{
    vstd::arithmetic::div_mod::lemma_mod_multiples_vanish(i, base, cell);
    assert(cell * i == i * cell) by (nonlinear_arith);
    assert(i * cell + cell <= cell * n) by (nonlinear_arith)
        requires
            0 <= i < n,
            1 <= cell,
    ;
}

/// The voxels that are listed under a node are those of its cube that have values.
proof fn lemma_voxels_under<V>(
    levels: Seq<Level>,
    pools: Pools<V>,
    level: nat,
    node: int,
    base: UVec3,
    count: nat,
    c: UVec3,
)
    requires
        levels_ok(levels),
        pools_ok(levels, pools),
        level < levels.len(),
        0 <= node < pools[level as int].len(),
        aligned(levels, level as int, base),
        count <= cells(levels[level as int]),
    ensures
        voxels_under(levels, pools, level, node, base, count).contains(c) <==> in_cube(
            base,
            levels[level as int].cell * levels[level as int].fan,
            c,
        ) && slot(levels[level as int], c) < count && find(levels, pools, level, node, c) is Some,
    decreases level, count,
{
    let here = levels[level as int];
    let list = voxels_under(levels, pools, level, node, base, count);
    if count > 0 {
        let k = count - 1;
        let before = voxels_under(levels, pools, level, node, base, k as nat);
        let at = cell_base(here, base, k);
        lemma_voxels_under(levels, pools, level, node, base, k as nat, c);
        lemma_cell_of(levels, level as int, base, c, k);
        assert(node_fits(
            pools[level as int][node],
            levels,
            level as int,
            if level > 0 {
                pools[level - 1].len() as int
            } else {
                0
            },
        ));
        if level == 0 {
            assert(in_cube(at, 1, c) <==> c == at);
            if leaf_value(pools[0][node], k) is Some {
                assert(list == before.push(at));
                assert(list.contains(c) <==> before.contains(c) || c == at) by {
                    if before.contains(c) {
                        let i = choose|i: int| 0 <= i < before.len() && before[i] == c;
                        assert(list[i] == c);
                    }
                    if c == at {
                        assert(list[before.len() as int] == c);
                    }
                }
            }
        } else {
            match child_at(pools[level as int][node], k) {
                Some(child) => {
                    lemma_cell_aligned(levels, level as int, base, k);
                    let all = cells(levels[level - 1]) as nat;
                    let under = voxels_under(
                        levels,
                        pools,
                        (level - 1) as nat,
                        child as int,
                        at,
                        all,
                    );
                    assert(0 <= cells(levels[level - 1])) by {
                        lemma_cell_index(0, 0, 0, levels[level - 1].fan as int);
                    }
                    lemma_voxels_under(
                        levels,
                        pools,
                        (level - 1) as nat,
                        child as int,
                        at,
                        all,
                        c,
                    );
                    lemma_slot_bound(levels[level - 1], c);
                    assert(list == before + under);
                    assert(list.contains(c) <==> before.contains(c) || under.contains(c)) by {
                        if before.contains(c) {
                            let i = choose|i: int| 0 <= i < before.len() && before[i] == c;
                            assert(list[i] == c);
                        }
                        if under.contains(c) {
                            let i = choose|i: int| 0 <= i < under.len() && under[i] == c;
                            assert(list[before.len() + i] == c);
                        }
                        if list.contains(c) {
                            let i = choose|i: int| 0 <= i < list.len() && list[i] == c;
                            if i >= before.len() {
                                assert(under[i - before.len()] == c);
                            }
                        }
                    }
                },
                None => {},
            }
        }
    }
}

/// A path leads through the nodes that its parts lead through.
pub proof fn lemma_node_at_split<V>(
    levels: Seq<Level>,
    pools: Pools<V>,
    level: nat,
    node: int,
    c: UVec3,
    middle: nat,
    target: nat,
)
    requires
        target <= middle <= level,
    ensures
        node_at(levels, pools, level, node, c, target) == (match node_at(
            levels,
            pools,
            level,
            node,
            c,
            middle,
        ) {
            Some(at) => node_at(levels, pools, middle, at, c, target),
            None => None,
        }),
    decreases level,
{
    if level > middle {
        if let Some(child) = child_at(pools[level as int][node], slot(levels[level as int], c)) {
            lemma_node_at_split(
                levels,
                pools,
                (level - 1) as nat,
                child as int,
                c,
                middle,
                target,
            );
        }
    }
}

/// A node has a cell, and no more than can be counted.
pub proof fn lemma_cells_bound(levels: Seq<Level>, level: int)
    requires
        levels_ok(levels),
        0 <= level < levels.len(),
    ensures
        1 <= levels[level].fan * levels[level].fan <= 65536,
        1 <= cells(levels[level]) <= 16777216,
{
    let fan = levels[level].fan as int;
    assert(1 <= fan * fan <= 65536) by (nonlinear_arith)
        requires
            1 <= fan <= 256,
    ;
    assert(1 <= fan * fan * fan <= 16777216) by (nonlinear_arith)
        requires
            1 <= fan <= 256,
            1 <= fan * fan <= 65536,
    ;
}

proof fn lemma_slot_bound(level: Level, c: UVec3)
    requires
        1 <= level.fan <= 256,
        1 <= level.cell,
    ensures
        0 <= slot(level, c) < cells(level),
{
    lemma_cell_index(
        ((c.x / level.cell) % level.fan) as int,
        ((c.y / level.cell) % level.fan) as int,
        ((c.z / level.cell) % level.fan) as int,
        level.fan as int,
    );
}

/// The leaves under the first `count` cells of a node whose smallest voxel is `base`, each by its
/// smallest voxel and its place in the pool, in the order of the cells.
pub open spec fn leaves_under<V>(
    levels: Seq<Level>,
    pools: Pools<V>,
    level: nat,
    node: int,
    base: UVec3,
    count: nat,
) -> Seq<(UVec3, u32)>
    decreases level, count,
{
    if level == 0 {
        seq![(base, node as u32)]
    } else if count == 0 {
        Seq::empty()
    } else {
        let k = count - 1;
        let before = leaves_under(levels, pools, level, node, base, k as nat);
        match child_at(pools[level as int][node], k) {
            Some(child) => before + leaves_under(
                levels,
                pools,
                (level - 1) as nat,
                child as int,
                cell_base(levels[level as int], base, k),
                cells(levels[level - 1]) as nat,
            ),
            None => before,
        }
    }
}

/// Pools in which a leaf has other values.
pub open spec fn with_leaf<V>(pools: Pools<V>, node: int, values: Seq<Option<V>>) -> Pools<V> {
    pools.update(0, pools[0].update(node, NodeView::Leaf { values }))
}

proof fn lemma_leaves_in_pool<V>(
    levels: Seq<Level>,
    pools: Pools<V>,
    level: nat,
    node: int,
    base: UVec3,
    count: nat,
)
    requires
        levels_ok(levels),
        pools_ok(levels, pools),
        level < levels.len(),
        0 <= node < pools[level as int].len(),
    ensures
        forall|i: int|
            0 <= i < leaves_under(levels, pools, level, node, base, count).len() ==> (
            #[trigger] leaves_under(levels, pools, level, node, base, count)[i]).1 < pools[0].len(),
    decreases level, count,
{
    let all = leaves_under(levels, pools, level, node, base, count);
    if level == 0 {
        assert(pools[0].len() <= u32::MAX);
        assert(all == seq![(base, node as u32)]);
    } else if count > 0 {
        let k = count - 1;
        let before = leaves_under(levels, pools, level, node, base, k as nat);
        lemma_leaves_in_pool(levels, pools, level, node, base, k as nat);
        match child_at(pools[level as int][node], k) {
            None => {
                assert(all == before);
            },
            Some(child) => {
                assert(node_fits(
                    pools[level as int][node],
                    levels,
                    level as int,
                    pools[level - 1].len() as int,
                ));
                let at = cell_base(levels[level as int], base, k);
                let cells_below = cells(levels[level - 1]) as nat;
                let below = (level - 1) as nat;
                let after = leaves_under(levels, pools, below, child as int, at, cells_below);
                lemma_leaves_in_pool(levels, pools, below, child as int, at, cells_below);
                assert(all == before + after);
                assert forall|i: int| 0 <= i < all.len() implies (#[trigger] all[i]).1
                    < pools[0].len() by {
                    if i < before.len() {
                        assert(all[i] == before[i]);
                    } else {
                        assert(all[i] == after[i - before.len()]);
                    }
                }
            },
        }
    }
}

proof fn lemma_leaves_keep<V>(
    levels: Seq<Level>,
    pools: Pools<V>,
    others: Pools<V>,
    level: nat,
    node: int,
    base: UVec3,
    count: nat,
)
    requires
        level < pools.len(),
        forall|l: int| 0 < l < pools.len() ==> #[trigger] pools[l] == others[l],
    ensures
        leaves_under(levels, pools, level, node, base, count) == leaves_under(
            levels,
            others,
            level,
            node,
            base,
            count,
        ),
    decreases level, count,
{
    if level > 0 && count > 0 {
        let k = count - 1;
        assert(pools[level as int] == others[level as int]);
        lemma_leaves_keep(levels, pools, others, level, node, base, k as nat);
        if let Some(child) = child_at(pools[level as int][node], k) {
            lemma_leaves_keep(
                levels,
                pools,
                others,
                (level - 1) as nat,
                child as int,
                cell_base(levels[level as int], base, k),
                cells(levels[level - 1]) as nat,
            );
        }
    }
}

proof fn lemma_with_leaf<V: Copy>(tree: Tree<V>, node: int)
    requires
        tree.wf(),
        0 <= node < tree.pools()[0].len(),
        tree.pools()[0][node] is Leaf,
    ensures
        forall|values: Seq<Option<V>>|
            values.len() == tree.pools()[0][node]->values.len() ==> pools_ok(
                tree.levels(),
                #[trigger] with_leaf(tree.pools(), node, values),
            ),
        forall|values: Seq<Option<V>>|
            leaves_under(
                tree.levels(),
                #[trigger] with_leaf(tree.pools(), node, values),
                (tree.levels().len() - 1) as nat,
                0,
                UVec3 { x: 0, y: 0, z: 0 },
                cells(tree.levels().last()) as nat,
            ) == tree.leaves(),
{
    let levels = tree.levels();
    let pools = tree.pools();
    assert forall|values: Seq<Option<V>>| leaves_under(
        levels,
        #[trigger] with_leaf(pools, node, values),
        (levels.len() - 1) as nat,
        0,
        UVec3 { x: 0, y: 0, z: 0 },
        cells(levels.last()) as nat,
    ) == tree.leaves() by {
        lemma_leaves_keep(
            levels,
            with_leaf(pools, node, values),
            pools,
            (levels.len() - 1) as nat,
            0,
            UVec3 { x: 0, y: 0, z: 0 },
            cells(levels.last()) as nat,
        );
    }
    assert forall|values: Seq<Option<V>>|
        values.len() == pools[0][node]->values.len() implies pools_ok(
        levels,
        #[trigger] with_leaf(pools, node, values),
    ) by {
        let after = with_leaf(pools, node, values);
        assert(node_fits(pools[0][node], levels, 0, 0));
        assert(owned(after[0])) by {
            assert forall|a: int, s: int| 0 <= a < after[0].len() implies #[trigger] child_at(
                after[0][a],
                s,
            ) is None by {
                if a != node {
                    assert(node_fits(pools[0][a], levels, 0, 0));
                }
            }
        }
        assert forall|l: int| 0 <= l < after.len() implies owned(#[trigger] after[l]) by {
            if l > 0 {
                assert(after[l] == pools[l]);
            }
        }
        assert forall|l: int, n: int| 0 <= l < after.len() && 0 <= n < after[l].len() implies node_fits(
            #[trigger] after[l][n],
            levels,
            l,
            if l > 0 {
                after[l - 1].len() as int
            } else {
                0
            },
        ) by {
            assert(node_fits(
                pools[l][n],
                levels,
                l,
                if l > 0 {
                    pools[l - 1].len() as int
                } else {
                    0
                },
            ));
        }
    }
}

fn cell_base_of(levels: &Vec<Level>, level: usize, base: UVec3, k: usize) -> (r: UVec3)
    requires
        levels_ok(levels@),
        level < levels@.len(),
        aligned(levels@, level as int, base),
        k < cells(levels@[level as int]),
    ensures
        r == cell_base(levels@[level as int], base, k as int),
{
    let n: usize = levels[level].fan as usize;
    let cell: u32 = levels[level].cell;
    proof {
        lemma_cell_of(levels@, level as int, base, base, k as int);
        lemma_digits(k as int, n as int);
        let i = k as int / (n * n);
        let j = k as int / n as int % n as int;
        let m = k as int % n as int;
        assert(0 < n * n <= 65536) by (nonlinear_arith)
            requires
                1 <= n <= 256,
        ;
        assert(i * cell + cell <= cell * n && j * cell + cell <= cell * n && m * cell + cell <= cell
            * n && 0 <= i * cell && 0 <= j * cell && 0 <= m * cell) by (nonlinear_arith)
            requires
                0 <= i < n,
                0 <= j < n,
                0 <= m < n,
                1 <= cell,
        ;
    }
    UVec3 {
        x: base.x + (k / (n * n)) as u32 * cell,
        y: base.y + (k / n % n) as u32 * cell,
        z: base.z + (k % n) as u32 * cell,
    }
}

impl<V: Copy> Tree<V> {
    fn cell_count(&self, level: usize) -> (r: usize)
        requires
            self.wf(),
            level < self.levels().len(),
        ensures
            r == cells(self.levels()[level as int]),
            r <= 16777216,
    {
        let fan: usize = self.levels[level].fan as usize;
        proof {
            lemma_cell_index(0, 0, 0, fan as int);
            assert(fan * fan <= 65536) by (nonlinear_arith)
                requires
                    0 <= fan <= 256,
            ;
        }
        fan * fan * fan
    }

    fn collect_voxels(&self, level: usize, node: usize, base: UVec3, out: &mut Vec<UVec3>)
        requires
            self.wf(),
            level < self.levels().len(),
            node < self.pools()[level as int].len(),
            aligned(self.levels(), level as int, base),
        ensures
            final(out)@ == old(out)@ + voxels_under(
                self.levels(),
                self.pools(),
                level as nat,
                node as int,
                base,
                cells(self.levels()[level as int]) as nat,
            ),
        decreases level, 0nat,
    {
        let count: usize = self.cell_count(level);
        let ghost start = out@;
        let mut k: usize = 0;
        assert(start + Seq::empty() =~= start);
        while k < count
            invariant
                k <= count,
                count == cells(self.levels()[level as int]),
                self.wf(),
                level < self.levels().len(),
                node < self.pools()[level as int].len(),
                aligned(self.levels(), level as int, base),
                out@ == start + voxels_under(
                    self.levels(),
                    self.pools(),
                    level as nat,
                    node as int,
                    base,
                    k as nat,
                ),
            decreases count - k,
        {
            let ghost after = voxels_under(
                self.levels(),
                self.pools(),
                level as nat,
                node as int,
                base,
                (k + 1) as nat,
            );
            assert(node_fits(
                self.pools()[level as int][node as int],
                self.levels@,
                level as int,
                if level > 0 {
                    self.pools()[level - 1].len() as int
                } else {
                    0
                },
            ));
            match &self.pools[level][node] {
                Node::Leaf { values } => {
                    if values[k].is_some() {
                        out.push(cell_base_of(&self.levels, level, base, k));
                        assert(out@ =~= start + after);
                    }
                },
                Node::Internal { children } => {
                    if let Some(child) = children[k] {
                        let at: UVec3 = cell_base_of(&self.levels, level, base, k);
                        proof {
                            lemma_cell_aligned(self.levels@, level as int, base, k as int);
                        }
                        self.collect_voxels(level - 1, child as usize, at, out);
                        assert(out@ =~= start + after);
                    }
                },
            }
            k += 1;
        }
    }

    /// The voxels with values, in their order.
    pub open spec fn voxels(&self) -> Seq<UVec3> {
        voxels_under(
            self.levels(),
            self.pools(),
            (self.levels().len() - 1) as nat,
            0,
            UVec3 { x: 0, y: 0, z: 0 },
            cells(self.levels().last()) as nat,
        )
    }

    /// The voxels with values.
    pub fn iter(&self) -> (r: Vec<UVec3>)
        requires
            self.wf(),
        ensures
            r@ == self.voxels(),
    {
        let mut voxels: Vec<UVec3> = Vec::new();
        proof {
            let width = self.width();
            assert(1 <= width) by {
                let top = self.levels().last();
                assert(1 <= top.cell * top.fan) by (nonlinear_arith)
                    requires
                        1 <= top.cell,
                        1 <= top.fan,
                ;
            }
            vstd::arithmetic::div_mod::lemma_small_mod(0, width as nat);
            assert(self.pools()[self.levels().len() - 1].len() == 1);
        }
        self.collect_voxels(self.levels.len() - 1, 0, UVec3 { x: 0, y: 0, z: 0 }, &mut voxels);
        assert(Seq::<UVec3>::empty() + voxels@ =~= voxels@);
        voxels
    }

    fn collect_leaves(&self, level: usize, node: usize, base: UVec3, out: &mut Vec<(UVec3, u32)>)
        requires
            self.wf(),
            level < self.levels().len(),
            node < self.pools()[level as int].len(),
            aligned(self.levels(), level as int, base),
        ensures
            final(out)@ == old(out)@ + leaves_under(
                self.levels(),
                self.pools(),
                level as nat,
                node as int,
                base,
                cells(self.levels()[level as int]) as nat,
            ),
        decreases level, 0nat,
    {
        let ghost start = out@;
        if level == 0 {
            out.push((base, node as u32));
            assert(out@ =~= start + seq![(base, node as u32)]);
            return;
        }
        let count: usize = self.cell_count(level);
        let mut k: usize = 0;
        assert(start + Seq::empty() =~= start);
        while k < count
            invariant
                k <= count,
                count == cells(self.levels()[level as int]),
                self.wf(),
                0 < level < self.levels().len(),
                node < self.pools()[level as int].len(),
                aligned(self.levels(), level as int, base),
                out@ == start + leaves_under(
                    self.levels(),
                    self.pools(),
                    level as nat,
                    node as int,
                    base,
                    k as nat,
                ),
            decreases count - k,
        {
            let ghost after = leaves_under(
                self.levels(),
                self.pools(),
                level as nat,
                node as int,
                base,
                (k + 1) as nat,
            );
            assert(node_fits(
                self.pools()[level as int][node as int],
                self.levels@,
                level as int,
                self.pools()[level - 1].len() as int,
            ));
            match &self.pools[level][node] {
                Node::Leaf { values } => {},
                Node::Internal { children } => {
                    if let Some(child) = children[k] {
                        let at: UVec3 = cell_base_of(&self.levels, level, base, k);
                        proof {
                            lemma_cell_aligned(self.levels@, level as int, base, k as int);
                        }
                        self.collect_leaves(level - 1, child as usize, at, out);
                        assert(out@ =~= start + after);
                    }
                },
            }
            k += 1;
        }
    }

    /// The leaves, each by its smallest voxel and its place in the pool of leaves.
    pub fn iter_leaf(&self) -> (r: Vec<(UVec3, u32)>)
        requires
            self.wf(),
        ensures
            r@ == self.leaves(),
    {
        let mut leaves: Vec<(UVec3, u32)> = Vec::new();
        proof {
            let top = self.levels().last();
            assert(1 <= top.cell * top.fan) by (nonlinear_arith)
                requires
                    1 <= top.cell,
                    1 <= top.fan,
            ;
            vstd::arithmetic::div_mod::lemma_small_mod(0, self.width() as nat);
            assert(self.pools()[self.levels().len() - 1].len() == 1);
        }
        self.collect_leaves(self.levels.len() - 1, 0, UVec3 { x: 0, y: 0, z: 0 }, &mut leaves);
        assert(Seq::<(UVec3, u32)>::empty() + leaves@ =~= leaves@);
        leaves
    }

    /// The leaves, each by its smallest voxel and its place in the pool of leaves.
    pub open spec fn leaves(&self) -> Seq<(UVec3, u32)> {
        leaves_under(
            self.levels(),
            self.pools(),
            (self.levels().len() - 1) as nat,
            0,
            UVec3 { x: 0, y: 0, z: 0 },
            cells(self.levels().last()) as nat,
        )
    }

    /// The values of a leaf to be changed, with its smallest voxel: the leaf at an index in the list
    /// of leaves, where there is one. Only its values change, and the list stays.
    pub fn iter_leaf_mut(&mut self, index: usize) -> (r: Option<(UVec3, &mut [Option<V>])>)
        requires
            old(self).wf(),
        ensures
            r is Some <==> index < old(self).leaves().len(),
            r is None ==> *final(self) == *old(self),
            r matches Some((base, values)) ==> {
                let (at, node) = old(self).leaves()[index as int];
                &&& base == at
                &&& node < old(self).pools()[0].len()
                &&& old(self).pools()[0][node as int] == (NodeView::Leaf { values: values@ })
                &&& final(self).levels() == old(self).levels()
                &&& final(self).pools() == with_leaf(old(self).pools(), node as int, final(values)@)
                &&& final(values)@.len() == values@.len() ==> final(self).wf()
                &&& final(self).leaves() == old(self).leaves()
            },
    {
        let leaves: Vec<(UVec3, u32)> = self.iter_leaf();
        if index >= leaves.len() {
            return None;
        }
        let (base, node): (UVec3, u32) = leaves[index];
        proof {
            lemma_leaves_in_pool(
                self.levels(),
                self.pools(),
                (self.levels().len() - 1) as nat,
                0,
                UVec3 { x: 0, y: 0, z: 0 },
                cells(self.levels().last()) as nat,
            );
            assert(leaves@[index as int] == self.leaves()[index as int]);
            assert(node_fits(self.pools()[0][node as int], self.levels(), 0, 0));
            lemma_with_leaf(*self, node as int);
        }
        match self.get_node_mut(0, node) {
            Node::Internal { .. } => None,
            Node::Leaf { values } => Some((base, values.as_mut_slice())),
        }
    }

    /// The number of leaves.
    pub fn count_leaves(&self) -> (r: usize)
        requires
            self.wf(),
        ensures
            r == self.leaves().len(),
    {
        self.iter_leaf().len()
    }

    /// A node of a level.
    pub fn get_node(&self, level: usize, node: u32) -> (r: &Node<V>)
        requires
            self.wf(),
            level < self.levels().len(),
            node < self.pools()[level as int].len(),
        ensures
            r@ == self.pools()[level as int][node as int],
    {
        &self.pools[level][node as usize]
    }

    /// The node of the cell of a node that a voxel lies in, where there is one.
    pub fn child(&self, level: usize, node: u32, c: UVec3) -> (r: Option<u32>)
        requires
            self.wf(),
            0 < level < self.levels().len(),
            node < self.pools()[level as int].len(),
        ensures
            r == child_at(
                self.pools()[level as int][node as int],
                slot(self.levels()[level as int], c),
            ),
            r matches Some(child) ==> child < self.pools()[level - 1].len(),
    {
        assert(node_fits(
            self.pools()[level as int][node as int],
            self.levels@,
            level as int,
            self.pools()[level - 1].len() as int,
        ));
        let s: usize = slot_of(self.levels[level], c);
        match &self.pools[level][node as usize] {
            Node::Internal { children } => children[s],
            Node::Leaf { .. } => None,
        }
    }

    /// A node of a level, to be changed. Whether the tree stays well-formed is up to what is
    /// changed.
    pub fn get_node_mut(&mut self, level: usize, node: u32) -> (r: &mut Node<V>)
        requires
            old(self).wf(),
            level < old(self).levels().len(),
            node < old(self).pools()[level as int].len(),
        ensures
            r@ == old(self).pools()[level as int][node as int],
            final(self).levels() == old(self).levels(),
            final(self).pools() =~~= old(self).pools().update(
                level as int,
                old(self).pools()[level as int].update(node as int, final(r)@),
            ),
    {
        &mut self.pools[level][node as usize]
    }

    /// The number of nodes of a level.
    pub fn pool_len(&self, level: usize) -> (r: usize)
        requires
            self.wf(),
            level < self.levels().len(),
        ensures
            r == self.pools()[level as int].len(),
    {
        self.pools[level].len()
    }

    /// How the nodes of each level divide their cubes, the leaves first.
    pub fn metas(&self) -> (r: &Vec<Level>)
        ensures
            r@ == self.levels(),
    {
        &self.levels
    }

    /// The number of levels.
    pub fn level_count(&self) -> (r: usize)
        ensures
            r == self.levels().len(),
    {
        self.levels.len()
    }
}

/// The voxels that are listed are those with values.
pub proof fn law_iter_lists_values<V: Copy>(tree: Tree<V>, c: UVec3)
    requires
        tree.wf(),
    ensures
        tree.voxels().contains(c) <==> tree.covers(c) && tree.value(c) is Some,
{
    let top = tree.levels().last();
    assert(1 <= top.cell * top.fan) by (nonlinear_arith)
        requires
            1 <= top.cell,
            1 <= top.fan,
    ;
    vstd::arithmetic::div_mod::lemma_small_mod(0, tree.width() as nat);
    assert(tree.pools()[tree.levels().len() - 1].len() == 1);
    lemma_cell_index(0, 0, 0, top.fan as int);
    lemma_slot_bound(top, c);
    lemma_voxels_under(
        tree.levels(),
        tree.pools(),
        (tree.levels().len() - 1) as nat,
        0,
        UVec3 { x: 0, y: 0, z: 0 },
        cells(top) as nat,
        c,
    );
}

/// Whether two voxels lie in the same cells above the leaves.
pub open spec fn same_route(levels: Seq<Level>, level: nat, c: UVec3, d: UVec3) -> bool
    decreases level,
{
    level > 0 ==> slot(levels[level as int], c) == slot(levels[level as int], d) && same_route(
        levels,
        (level - 1) as nat,
        c,
        d,
    )
}

/// A voxel is found in the leaf that its cells lead to, and pools that differ in their leaves alone
/// lead to the same one.
proof fn lemma_find_in_leaf<V>(
    levels: Seq<Level>,
    pools: Pools<V>,
    others: Pools<V>,
    level: nat,
    node: int,
    c: UVec3,
)
    requires
        level < others.len(),
        forall|l: int| 0 < l < others.len() ==> #[trigger] pools[l] == others[l],
    ensures
        leaf_of(levels, others, level, node, c) == leaf_of(levels, pools, level, node, c),
        find(levels, pools, level, node, c) == (match leaf_of(levels, pools, level, node, c) {
            Some(leaf) => leaf_value(pools[0][leaf], slot(levels[0], c)),
            None => None,
        }),
    decreases level,
{
    if level > 0 {
        assert(pools[level as int] == others[level as int]);
        if let Some(child) = child_at(pools[level as int][node], slot(levels[level as int], c)) {
            lemma_find_in_leaf(levels, pools, others, (level - 1) as nat, child as int, c);
        }
    }
}

proof fn lemma_leaf_in_pool<V>(
    levels: Seq<Level>,
    pools: Pools<V>,
    level: nat,
    node: int,
    c: UVec3,
)
    requires
        pools_ok(levels, pools),
        level < levels.len(),
        0 <= node < pools[level as int].len(),
    ensures
        leaf_of(levels, pools, level, node, c) matches Some(leaf) ==> 0 <= leaf < pools[0].len(),
    decreases level,
{
    if level > 0 {
        let below = pools[level - 1].len() as int;
        assert(node_fits(pools[level as int][node], levels, level as int, below));
        if let Some(child) = child_at(pools[level as int][node], slot(levels[level as int], c)) {
            lemma_leaf_in_pool(levels, pools, (level - 1) as nat, child as int, c);
        }
    }
}

/// Cells that lead to the same leaf are the same, and so are the nodes that they start from.
proof fn lemma_one_route<V>(
    levels: Seq<Level>,
    pools: Pools<V>,
    level: nat,
    a: int,
    c: UVec3,
    b: int,
    d: UVec3,
)
    requires
        levels_ok(levels),
        pools_ok(levels, pools),
        level < levels.len(),
        0 <= a < pools[level as int].len(),
        0 <= b < pools[level as int].len(),
        leaf_of(levels, pools, level, a, c) is Some,
        leaf_of(levels, pools, level, a, c) == leaf_of(levels, pools, level, b, d),
    ensures
        a == b,
        same_route(levels, level, c, d),
    decreases level,
{
    if level > 0 {
        let pool = pools[level as int];
        let s = slot(levels[level as int], c);
        let t = slot(levels[level as int], d);
        let below = pools[level - 1].len() as int;
        assert(node_fits(pools[level as int][a], levels, level as int, below));
        assert(node_fits(pools[level as int][b], levels, level as int, below));
        lemma_one_route(
            levels,
            pools,
            (level - 1) as nat,
            child_at(pool[a], s)->0 as int,
            c,
            child_at(pool[b], t)->0 as int,
            d,
        );
        assert(owned(pools[level as int]));
        assert(child_at(pool[a], s) == child_at(pool[b], t));
    }
}

/// The voxels of the cube of a listed leaf lie in the cube of the node, their cells lead to the leaf,
/// and those of no other voxels of the node's cube do.
proof fn lemma_leaf_cube<V>(
    levels: Seq<Level>,
    pools: Pools<V>,
    level: nat,
    node: int,
    base: UVec3,
    count: nat,
    i: int,
    c: UVec3,
)
    requires
        levels_ok(levels),
        pools_ok(levels, pools),
        level < levels.len(),
        0 <= node < pools[level as int].len(),
        aligned(levels, level as int, base),
        count <= cells(levels[level as int]),
        0 <= i < leaves_under(levels, pools, level, node, base, count).len(),
    ensures
        ({
            let (at, leaf) = leaves_under(levels, pools, level, node, base, count)[i];
            let width = levels[level as int].cell * levels[level as int].fan;
            &&& aligned(levels, 0, at)
            &&& in_cube(at, levels[0].fan as int, at)
            &&& in_cube(at, levels[0].fan as int, c) ==> in_cube(base, width, c) && leaf_of(
                levels,
                pools,
                level,
                node,
                c,
            ) == Some(leaf as int) && (level > 0 ==> slot(levels[level as int], c) < count)
            &&& in_cube(base, width, c) && same_route(levels, level, c, at) ==> in_cube(
                at,
                levels[0].fan as int,
                c,
            )
        }),
    decreases level, count,
{
    assert(pools[level as int].len() <= u32::MAX);
    let here = levels[level as int];
    if level == 0 {
        assert(here.cell * here.fan == here.fan) by (nonlinear_arith)
            requires
                here.cell == 1,
        ;
    } else {
        let k = count - 1;
        let before = leaves_under(levels, pools, level, node, base, k as nat);
        if i < before.len() {
            lemma_leaf_cube(levels, pools, level, node, base, k as nat, i, c);
        } else {
            let child = child_at(pools[level as int][node], k)->0;
            let corner = cell_base(here, base, k);
            let all = cells(levels[level - 1]) as nat;
            let under = leaves_under(levels, pools, (level - 1) as nat, child as int, corner, all);
            let at = under[i - before.len()].0;
            assert(node_fits(
                pools[level as int][node],
                levels,
                level as int,
                pools[level - 1].len() as int,
            ));
            lemma_cell_aligned(levels, level as int, base, k);
            lemma_cell_index(0, 0, 0, levels[level - 1].fan as int);
            lemma_leaf_cube(
                levels,
                pools,
                (level - 1) as nat,
                child as int,
                corner,
                all,
                i - before.len(),
                c,
            );
            lemma_leaf_cube(
                levels,
                pools,
                (level - 1) as nat,
                child as int,
                corner,
                all,
                i - before.len(),
                at,
            );
            lemma_cell_of(levels, level as int, base, c, k);
            lemma_cell_of(levels, level as int, base, at, k);
        }
    }
}

/// The smallest voxel of the leaf that a voxel lies in.
pub open spec fn leaf_place(levels: Seq<Level>, c: UVec3) -> UVec3 {
    let fan = levels[0].fan;
    UVec3 { x: (c.x - c.x % fan) as u32, y: (c.y - c.y % fan) as u32, z: (c.z - c.z % fan) as u32 }
}

/// The smallest voxel of the leaf that a voxel lies in is a multiple of the width of a leaf along each
/// axis, and the voxel is less than that width past it.
pub proof fn law_leaf_place(levels: Seq<Level>, c: UVec3)
    requires
        levels_ok(levels),
    ensures
        ({
            let fan = levels[0].fan;
            let place = leaf_place(levels, c);
            &&& place.x % fan == 0 && place.x <= c.x < place.x + fan
            &&& place.y % fan == 0 && place.y <= c.y < place.y + fan
            &&& place.z % fan == 0 && place.z <= c.z < place.z + fan
        }),
{
    let fan = levels[0].fan as int;
    lemma_whole_steps(c.x as int, fan);
    lemma_whole_steps(c.y as int, fan);
    lemma_whole_steps(c.z as int, fan);
}

proof fn lemma_whole_steps(a: int, n: int)
    requires
        0 <= a,
        0 < n,
    ensures
        (a - a % n) % n == 0,
        0 <= a % n < n,
        a % n <= a,
{
    vstd::arithmetic::div_mod::lemma_fundamental_div_mod(a, n);
    vstd::arithmetic::div_mod::lemma_mod_bound(a, n);
    vstd::arithmetic::div_mod::lemma_div_pos_is_pos(a, n);
    vstd::arithmetic::mul::lemma_mul_is_commutative(n, a / n);
    vstd::arithmetic::div_mod::lemma_mod_multiples_basic(a / n, n);
    assert(0 <= n * (a / n)) by (nonlinear_arith)
        requires
            0 < n,
            0 <= a / n,
    ;
}

proof fn lemma_cell_multiple(levels: Seq<Level>, level: int)
    requires
        levels_ok(levels),
        0 < level < levels.len(),
    ensures
        levels[level].cell as int % levels[0].fan as int == 0,
    decreases level,
{
    let fan = levels[0].fan as int;
    let last = levels[level - 1];
    if level == 1 {
        assert(last.cell * last.fan == 1 * fan);
        vstd::arithmetic::div_mod::lemma_mod_multiples_basic(1, fan);
    } else {
        lemma_cell_multiple(levels, level - 1);
        let q = last.cell as int / fan;
        vstd::arithmetic::div_mod::lemma_fundamental_div_mod(last.cell as int, fan);
        assert(last.cell * last.fan == (q * last.fan) * fan) by (nonlinear_arith)
            requires
                last.cell == fan * q,
        ;
        vstd::arithmetic::div_mod::lemma_mod_multiples_basic(q * last.fan, fan);
    }
}

/// Along one axis: rounding a voxel down to a leaf stays in a range that starts at one.
proof fn lemma_round_down(base: int, c: int, fan: int)
    requires
        1 <= fan,
        0 <= base <= c,
        base % fan == 0,
    ensures
        base <= c - c % fan <= c,
        (c - c % fan) % fan == 0,
        c < base + fan ==> c - c % fan == base,
{
    let p = base / fan;
    let q = c / fan;
    vstd::arithmetic::div_mod::lemma_fundamental_div_mod(base, fan);
    vstd::arithmetic::div_mod::lemma_fundamental_div_mod(c, fan);
    vstd::arithmetic::mul::lemma_mul_is_commutative(fan, q);
    assert(p <= q) by (nonlinear_arith)
        requires
            fan * p <= fan * q + c % fan,
            c % fan < fan,
            1 <= fan,
    ;
    assert(fan * p <= fan * q) by (nonlinear_arith)
        requires
            p <= q,
            1 <= fan,
    ;
    vstd::arithmetic::div_mod::lemma_mod_multiples_basic(q, fan);
    if c < base + fan {
        assert(q <= p) by (nonlinear_arith)
            requires
                fan * q < fan * p + fan,
                1 <= fan,
        ;
    }
}

/// The leaf of a voxel of a cube that leaves divide lies in that cube.
proof fn lemma_place_in_cube(levels: Seq<Level>, base: UVec3, width: int, c: UVec3)
    requires
        levels_ok(levels),
        base.x as int % levels[0].fan as int == 0,
        base.y as int % levels[0].fan as int == 0,
        base.z as int % levels[0].fan as int == 0,
        in_cube(base, width, c),
    ensures
        in_cube(base, width, leaf_place(levels, c)),
        in_cube(leaf_place(levels, c), levels[0].fan as int, c),
        width == levels[0].fan ==> leaf_place(levels, c) == base,
{
    let fan = levels[0].fan as int;
    lemma_round_down(base.x as int, c.x as int, fan);
    lemma_round_down(base.y as int, c.y as int, fan);
    lemma_round_down(base.z as int, c.z as int, fan);
}

proof fn lemma_place_aligned(levels: Seq<Level>, level: int, base: UVec3)
    requires
        levels_ok(levels),
        0 <= level < levels.len(),
        aligned(levels, level, base),
    ensures
        base.x as int % levels[0].fan as int == 0,
        base.y as int % levels[0].fan as int == 0,
        base.z as int % levels[0].fan as int == 0,
{
    let fan = levels[0].fan as int;
    let here = levels[level];
    let width = here.cell * here.fan;
    assert(width % fan == 0 && 1 <= width) by {
        if level == 0 {
            assert(width == 1 * fan) by (nonlinear_arith)
                requires
                    width == here.cell * here.fan,
                    here.cell == 1,
                    fan == here.fan,
            ;
            vstd::arithmetic::div_mod::lemma_mod_multiples_basic(1, fan);
        } else {
            lemma_cell_multiple(levels, level);
            let q = here.cell as int / fan;
            vstd::arithmetic::div_mod::lemma_fundamental_div_mod(here.cell as int, fan);
            assert(width == (q * here.fan) * fan) by (nonlinear_arith)
                requires
                    width == here.cell * here.fan,
                    here.cell == fan * q,
            ;
            vstd::arithmetic::div_mod::lemma_mod_multiples_basic(q * here.fan, fan);
        }
        assert(1 <= width) by (nonlinear_arith)
            requires
                width == here.cell * here.fan,
                1 <= here.cell,
                1 <= here.fan,
        ;
    }
    lemma_multiple_of_multiple(base.x as int, width, fan);
    lemma_multiple_of_multiple(base.y as int, width, fan);
    lemma_multiple_of_multiple(base.z as int, width, fan);
}

proof fn lemma_multiple_of_multiple(n: int, width: int, fan: int)
    requires
        1 <= fan,
        1 <= width,
        width % fan == 0,
        n % width == 0,
    ensures
        n % fan == 0,
{
    let p = n / width;
    let q = width / fan;
    vstd::arithmetic::div_mod::lemma_fundamental_div_mod(n, width);
    vstd::arithmetic::div_mod::lemma_fundamental_div_mod(width, fan);
    assert(n == (p * q) * fan) by (nonlinear_arith)
        requires
            n == width * p,
            width == fan * q,
    ;
    vstd::arithmetic::div_mod::lemma_mod_multiples_basic(p * q, fan);
}

/// Voxels of the cube of a node lie in the same cells above the leaves exactly where they lie in the
/// cube of the same leaf.
proof fn lemma_route_is_place(
    levels: Seq<Level>,
    level: nat,
    base: UVec3,
    c: UVec3,
    d: UVec3,
)
    requires
        levels_ok(levels),
        level < levels.len(),
        aligned(levels, level as int, base),
        in_cube(base, levels[level as int].cell * levels[level as int].fan, c),
        in_cube(base, levels[level as int].cell * levels[level as int].fan, d),
    ensures
        same_route(levels, level, c, d) <==> leaf_place(levels, c) == leaf_place(levels, d),
    decreases level,
{
    let here = levels[level as int];
    let width = here.cell * here.fan;
    lemma_place_aligned(levels, level as int, base);
    if level == 0 {
        assert(width == here.fan) by (nonlinear_arith)
            requires
                width == here.cell * here.fan,
                here.cell == 1,
        ;
        lemma_place_in_cube(levels, base, width, c);
        lemma_place_in_cube(levels, base, width, d);
    } else {
        let k = slot(here, c);
        let m = slot(here, d);
        lemma_slot_bound(here, c);
        lemma_slot_bound(here, d);
        let at = cell_base(here, base, k);
        lemma_cell_of(levels, level as int, base, c, k);
        lemma_cell_of(levels, level as int, base, d, m);
        lemma_cell_aligned(levels, level as int, base, k);
        lemma_cell_aligned(levels, level as int, base, m);
        lemma_place_aligned(levels, level - 1, at);
        lemma_place_aligned(levels, level - 1, cell_base(here, base, m));
        lemma_place_in_cube(levels, at, here.cell as int, c);
        lemma_place_in_cube(levels, cell_base(here, base, m), here.cell as int, d);
        lemma_cell_of(levels, level as int, base, leaf_place(levels, c), k);
        lemma_cell_of(levels, level as int, base, leaf_place(levels, d), m);
        if k == m {
            lemma_route_is_place(levels, (level - 1) as nat, at, c, d);
        }
    }
}

/// A leaf that cells lead to is listed.
proof fn lemma_leaf_listed<V>(
    levels: Seq<Level>,
    pools: Pools<V>,
    level: nat,
    node: int,
    base: UVec3,
    count: nat,
    c: UVec3,
) -> (i: int)
    requires
        levels_ok(levels),
        pools_ok(levels, pools),
        level < levels.len(),
        0 <= node < pools[level as int].len(),
        aligned(levels, level as int, base),
        count <= cells(levels[level as int]),
        in_cube(base, levels[level as int].cell * levels[level as int].fan, c),
        leaf_of(levels, pools, level, node, c) is Some,
        level > 0 ==> slot(levels[level as int], c) < count,
    ensures
        0 <= i < leaves_under(levels, pools, level, node, base, count).len(),
        in_cube(
            leaves_under(levels, pools, level, node, base, count)[i].0,
            levels[0].fan as int,
            c,
        ),
    decreases level, count,
{
    let here = levels[level as int];
    let all = leaves_under(levels, pools, level, node, base, count);
    if level == 0 {
        assert(here.cell * here.fan == here.fan) by (nonlinear_arith)
            requires
                here.cell == 1,
        ;
        assert(all == seq![(base, node as u32)]);
        0
    } else {
        lemma_slot_bound(here, c);
        let k = count - 1;
        let before = leaves_under(levels, pools, level, node, base, k as nat);
        let at = cell_base(here, base, k);
        if slot(here, c) < k {
            let i = lemma_leaf_listed(levels, pools, level, node, base, k as nat, c);
            assert(all[i] == before[i]);
            i
        } else {
            let child = child_at(pools[level as int][node], k)->0;
            let below = (level - 1) as nat;
            let whole = cells(levels[level - 1]) as nat;
            assert(node_fits(
                pools[level as int][node],
                levels,
                level as int,
                pools[level - 1].len() as int,
            ));
            lemma_cell_of(levels, level as int, base, c, k);
            lemma_cell_aligned(levels, level as int, base, k);
            lemma_cell_index(0, 0, 0, levels[level - 1].fan as int);
            lemma_slot_bound(levels[level - 1], c);
            assert(leaf_of(levels, pools, below, child as int, c) is Some);
            let i = lemma_leaf_listed(levels, pools, below, child as int, at, whole, c);
            let under = leaves_under(levels, pools, below, child as int, at, whole);
            assert(all[before.len() + i] == under[i]);
            before.len() + i
        }
    }
}

/// No place is listed twice under a node.
proof fn lemma_places_once<V>(
    levels: Seq<Level>,
    pools: Pools<V>,
    level: nat,
    node: int,
    base: UVec3,
    count: nat,
    i: int,
    j: int,
)
    requires
        levels_ok(levels),
        pools_ok(levels, pools),
        level < levels.len(),
        0 <= node < pools[level as int].len(),
        aligned(levels, level as int, base),
        count <= cells(levels[level as int]),
        0 <= i < j < leaves_under(levels, pools, level, node, base, count).len(),
    ensures
        leaves_under(levels, pools, level, node, base, count)[i].0 != leaves_under(
            levels,
            pools,
            level,
            node,
            base,
            count,
        )[j].0,
    decreases level, count,
{
    let here = levels[level as int];
    let all = leaves_under(levels, pools, level, node, base, count);
    if level > 0 {
        let k = count - 1;
        let before = leaves_under(levels, pools, level, node, base, k as nat);
        if j < before.len() {
            lemma_places_once(levels, pools, level, node, base, k as nat, i, j);
            assert(all[i] == before[i] && all[j] == before[j]);
        } else {
            let child = child_at(pools[level as int][node], k)->0;
            let below = (level - 1) as nat;
            let whole = cells(levels[level - 1]) as nat;
            let at = cell_base(here, base, k);
            let under = leaves_under(levels, pools, below, child as int, at, whole);
            let later = j - before.len();
            assert(node_fits(
                pools[level as int][node],
                levels,
                level as int,
                pools[level - 1].len() as int,
            ));
            lemma_cell_aligned(levels, level as int, base, k);
            lemma_cell_index(0, 0, 0, levels[level - 1].fan as int);
            assert(all[j] == under[later]);
            if i >= before.len() {
                assert(all[i] == under[i - before.len()]);
                lemma_places_once(
                    levels,
                    pools,
                    below,
                    child as int,
                    at,
                    whole,
                    i - before.len(),
                    later,
                );
            } else {
                assert(all[i] == before[i]);
                let first = before[i].0;
                let second = under[later].0;
                lemma_leaf_cube(levels, pools, level, node, base, k as nat, i, first);
                lemma_leaf_cube(levels, pools, below, child as int, at, whole, later, second);
                lemma_cell_of(levels, level as int, base, second, k);
            }
        }
    }
}

impl<V: Copy> Tree<V> {
    /// The leaf that a voxel lies in, by its place in the pool of leaves, where there is one.
    pub open spec fn leaf_at(&self, c: UVec3) -> Option<int> {
        leaf_of(self.levels(), self.pools(), (self.levels().len() - 1) as nat, 0, c)
    }

    /// The places of the leaves, each by its smallest voxel.
    pub open spec fn leaf_places(&self) -> Set<UVec3> {
        Set::new(
            |b: UVec3|
                exists|i: int| 0 <= i < self.leaves().len() && (#[trigger] self.leaves()[i]).0 == b,
        )
    }
}

/// A tree has a leaf at the places at which the cells of voxels lead to one.
proof fn lemma_leaf_places<V: Copy>(tree: Tree<V>, b: UVec3)
    requires
        tree.wf(),
    ensures
        tree.leaf_places().contains(b) <==> tree.covers(b) && leaf_place(tree.levels(), b) == b
            && tree.leaf_at(b) is Some,
{
    let levels = tree.levels();
    let pools = tree.pools();
    let level = (levels.len() - 1) as nat;
    let top = levels.last();
    let base = UVec3 { x: 0, y: 0, z: 0 };
    let whole = cells(top) as nat;
    lemma_root_cube(tree);
    if tree.leaf_places().contains(b) {
        let i = choose|i: int| 0 <= i < tree.leaves().len() && (#[trigger] tree.leaves()[i]).0 == b;
        lemma_leaf_cube(levels, pools, level, 0, base, whole, i, b);
        lemma_place_aligned(levels, 0, b);
        lemma_place_in_cube(levels, b, levels[0].fan as int, b);
    }
    if tree.covers(b) && leaf_place(levels, b) == b && tree.leaf_at(b) is Some {
        lemma_slot_bound(top, b);
        let i = lemma_leaf_listed(levels, pools, level, 0, base, whole, b);
        let at = tree.leaves()[i].0;
        lemma_leaf_cube(levels, pools, level, 0, base, whole, i, b);
        lemma_place_aligned(levels, 0, at);
        lemma_place_in_cube(levels, at, levels[0].fan as int, b);
        assert(tree.leaves()[i].0 == b);
    }
}

/// Setting a value adds the leaf of the voxel, where there is none.
proof fn lemma_leaves_set<V: Copy>(before: Tree<V>, after: Tree<V>, c: UVec3, value: Option<V>)
    requires
        before.wf(),
        after.wf(),
        after.levels() == before.levels(),
        before.covers(c),
        leaf_set(
            before.levels(),
            before.pools(),
            after.pools(),
            (before.levels().len() - 1) as nat,
            0,
            c,
            value,
        ),
    ensures
        forall|d: UVec3|
            before.covers(d) ==> #[trigger] after.leaf_at(d) == (if value is Some && before.leaf_at(
                d,
            ) is None && leaf_place(before.levels(), d) == leaf_place(before.levels(), c) {
                Some(before.pools()[0].len() as int)
            } else {
                before.leaf_at(d)
            }),
        after.leaf_places() == (if value is Some {
            before.leaf_places().insert(leaf_place(before.levels(), c))
        } else {
            before.leaf_places()
        }),
{
    let levels = before.levels();
    let level = (levels.len() - 1) as nat;
    let base = UVec3 { x: 0, y: 0, z: 0 };
    lemma_root_cube(before);
    assert forall|d: UVec3| before.covers(d) implies #[trigger] after.leaf_at(d) == (if value is Some
        && before.leaf_at(d) is None && leaf_place(levels, d) == leaf_place(levels, c) {
        Some(before.pools()[0].len() as int)
    } else {
        before.leaf_at(d)
    }) by {
        lemma_route_is_place(levels, level, base, c, d);
    }
    let place = leaf_place(levels, c);
    lemma_place_aligned(levels, level as int, base);
    lemma_place_in_cube(levels, base, before.width(), c);
    lemma_round_down(0, c.x as int, levels[0].fan as int);
    lemma_round_down(0, c.y as int, levels[0].fan as int);
    lemma_round_down(0, c.z as int, levels[0].fan as int);
    assert(leaf_place(levels, place) == place);
    assert forall|b: UVec3| #[trigger] after.leaf_places().contains(b) <==> before.leaf_places().contains(
        b,
    ) || (value is Some && b == place) by {
        lemma_leaf_places(before, b);
        lemma_leaf_places(after, b);
        assert(before.covers(b) == after.covers(b));
    }
    assert(after.leaf_places() =~= (if value is Some {
        before.leaf_places().insert(place)
    } else {
        before.leaf_places()
    }));
}

/// The root can be the node of the whole cube.
proof fn lemma_root_cube<V: Copy>(tree: Tree<V>)
    requires
        tree.wf(),
    ensures
        aligned(tree.levels(), tree.levels().len() - 1, UVec3 { x: 0, y: 0, z: 0 }),
        tree.pools()[tree.levels().len() - 1].len() == 1,
        0 <= cells(tree.levels().last()),
{
    let top = tree.levels().last();
    assert(1 <= top.cell * top.fan) by (nonlinear_arith)
        requires
            1 <= top.cell,
            1 <= top.fan,
    ;
    vstd::arithmetic::div_mod::lemma_small_mod(0, tree.width() as nat);
    assert(tree.pools()[tree.levels().len() - 1].len() == 1);
    lemma_cell_index(0, 0, 0, top.fan as int);
}

/// No leaf is listed twice: there are as many leaves as places.
pub proof fn law_leaves_once<V: Copy>(tree: Tree<V>)
    requires
        tree.wf(),
    ensures
        forall|i: int, j: int|
            0 <= i < j < tree.leaves().len() ==> (#[trigger] tree.leaves()[i]).0 != (
            #[trigger] tree.leaves()[j]).0,
        tree.leaf_places().finite(),
        tree.leaf_places().len() == tree.leaves().len(),
{
    lemma_root_cube(tree);
    assert forall|i: int, j: int| 0 <= i < j < tree.leaves().len() implies (
    #[trigger] tree.leaves()[i]).0 != (#[trigger] tree.leaves()[j]).0 by {
        lemma_places_once(
            tree.levels(),
            tree.pools(),
            (tree.levels().len() - 1) as nat,
            0,
            UVec3 { x: 0, y: 0, z: 0 },
            cells(tree.levels().last()) as nat,
            i,
            j,
        );
    }
    let places = Seq::new(tree.leaves().len(), |i: int| tree.leaves()[i].0);
    assert(places.no_duplicates()) by {
        assert forall|i: int, j: int| 0 <= i < places.len() && 0 <= j < places.len() && i != j implies places[i]
            != places[j] by {
            if i < j {
                assert(tree.leaves()[i].0 != tree.leaves()[j].0);
            } else {
                assert(tree.leaves()[j].0 != tree.leaves()[i].0);
            }
        }
    }
    places.unique_seq_to_set();
    assert(places.to_set() =~= tree.leaf_places()) by {
        assert forall|b: UVec3| places.to_set().contains(b) <==> tree.leaf_places().contains(b) by {
            if places.contains(b) {
                let i = choose|i: int| 0 <= i < places.len() && places[i] == b;
                assert(tree.leaves()[i].0 == b);
            }
            if tree.leaf_places().contains(b) {
                let i = choose|i: int|
                    0 <= i < tree.leaves().len() && (#[trigger] tree.leaves()[i]).0 == b;
                assert(places[i] == b);
            }
        }
    }
}

/// What is written through a listed leaf is read back: each voxel of the cube of the leaf has the
/// value that its place in the leaf has got, and every other voxel keeps its own.
pub proof fn law_leaf_change_is_read<V: Copy>(
    before: Tree<V>,
    after: Tree<V>,
    index: int,
    values: Seq<Option<V>>,
    c: UVec3,
)
    requires
        before.wf(),
        0 <= index < before.leaves().len(),
        values.len() == cells(before.levels()[0]),
        after.levels() == before.levels(),
        after.pools() == with_leaf(before.pools(), before.leaves()[index].1 as int, values),
        before.covers(c),
    ensures
        after.value(c) == (if in_cube(
            before.leaves()[index].0,
            before.levels()[0].fan as int,
            c,
        ) {
            values[slot(before.levels()[0], c)]
        } else {
            before.value(c)
        }),
{
    let levels = before.levels();
    let pools = before.pools();
    let level = (levels.len() - 1) as nat;
    let top = levels.last();
    let base = UVec3 { x: 0, y: 0, z: 0 };
    let (at, leaf) = before.leaves()[index];
    assert(1 <= top.cell * top.fan) by (nonlinear_arith)
        requires
            1 <= top.cell,
            1 <= top.fan,
    ;
    vstd::arithmetic::div_mod::lemma_small_mod(0, before.width() as nat);
    assert(pools[level as int].len() == 1);
    lemma_cell_index(0, 0, 0, top.fan as int);
    lemma_leaves_in_pool(levels, pools, level, 0, base, cells(top) as nat);
    assert(leaf < pools[0].len());
    lemma_leaf_cube(levels, pools, level, 0, base, cells(top) as nat, index, c);
    lemma_leaf_cube(levels, pools, level, 0, base, cells(top) as nat, index, at);
    lemma_find_in_leaf(levels, pools, pools, level, 0, c);
    lemma_find_in_leaf(levels, after.pools(), pools, level, 0, c);
    lemma_leaf_in_pool(levels, pools, level, 0, c);
    lemma_slot_bound(levels[0], c);
    if leaf_of(levels, pools, level, 0, c) == Some(leaf as int) {
        lemma_one_route(levels, pools, level, 0, c, 0, at);
    }
}

/// No voxel is listed twice under a node.
proof fn lemma_voxels_once<V>(
    levels: Seq<Level>,
    pools: Pools<V>,
    level: nat,
    node: int,
    base: UVec3,
    count: nat,
)
    requires
        levels_ok(levels),
        pools_ok(levels, pools),
        level < levels.len(),
        0 <= node < pools[level as int].len(),
        aligned(levels, level as int, base),
        count <= cells(levels[level as int]),
    ensures
        voxels_under(levels, pools, level, node, base, count).no_duplicates(),
    decreases level, count,
{
    if count > 0 {
        let k = count - 1;
        let here = levels[level as int];
        let before = voxels_under(levels, pools, level, node, base, k as nat);
        let list = voxels_under(levels, pools, level, node, base, count);
        let at = cell_base(here, base, k);
        lemma_voxels_once(levels, pools, level, node, base, k as nat);
        assert(node_fits(
            pools[level as int][node],
            levels,
            level as int,
            if level > 0 {
                pools[level - 1].len() as int
            } else {
                0
            },
        ));
        assert forall|c: UVec3| in_cube(at, here.cell as int, c) implies !#[trigger] before.contains(c) by {
            lemma_voxels_under(levels, pools, level, node, base, k as nat, c);
            lemma_cell_of(levels, level as int, base, c, k);
        }
        if level == 0 {
            if leaf_value(pools[0][node], k) is Some {
                assert(!before.contains(at));
                assert forall|i: int, j: int|
                    0 <= i < list.len() && 0 <= j < list.len() && i != j implies list[i]
                    != list[j] by {
                    if i < before.len() {
                        assert(before.contains(before[i]));
                    }
                    if j < before.len() {
                        assert(before.contains(before[j]));
                    }
                }
            }
        } else if let Some(child) = child_at(pools[level as int][node], k) {
            let all = cells(levels[level - 1]) as nat;
            let under = voxels_under(levels, pools, (level - 1) as nat, child as int, at, all);
            lemma_cell_aligned(levels, level as int, base, k);
            lemma_cell_index(0, 0, 0, levels[level - 1].fan as int);
            lemma_voxels_once(levels, pools, (level - 1) as nat, child as int, at, all);
            assert forall|i: int| 0 <= i < under.len() implies !before.contains(
                #[trigger] under[i],
            ) by {
                assert(under.contains(under[i]));
                lemma_voxels_under(
                    levels,
                    pools,
                    (level - 1) as nat,
                    child as int,
                    at,
                    all,
                    under[i],
                );
            }
            assert forall|i: int, j: int|
                0 <= i < list.len() && 0 <= j < list.len() && i != j implies list[i] != list[j] by {
                if i < before.len() {
                    assert(before.contains(before[i]));
                }
                if j < before.len() {
                    assert(before.contains(before[j]));
                }
                if i >= before.len() {
                    assert(list[i] == under[i - before.len()]);
                }
                if j >= before.len() {
                    assert(list[j] == under[j - before.len()]);
                }
            }
        }
    }
}

/// No voxel is listed twice.
pub proof fn law_iter_lists_once<V: Copy>(tree: Tree<V>)
    requires
        tree.wf(),
    ensures
        tree.voxels().no_duplicates(),
{
    let top = tree.levels().last();
    assert(1 <= top.cell * top.fan) by (nonlinear_arith)
        requires
            1 <= top.cell,
            1 <= top.fan,
    ;
    vstd::arithmetic::div_mod::lemma_small_mod(0, tree.width() as nat);
    assert(tree.pools()[tree.levels().len() - 1].len() == 1);
    lemma_cell_index(0, 0, 0, top.fan as int);
    lemma_voxels_once(
        tree.levels(),
        tree.pools(),
        (tree.levels().len() - 1) as nat,
        0,
        UVec3 { x: 0, y: 0, z: 0 },
        cells(top) as nat,
    );
}

/// A value that was set is read, and every other voxel reads as before.
pub proof fn law_set_value_is_read<V: Copy>(
    before: Tree<V>,
    after: Tree<V>,
    c: UVec3,
    value: Option<V>,
    d: UVec3,
)
    requires
        before.wf(),
        after.wf(),
        value_set(before, after, c, value),
        before.covers(c),
        before.covers(d),
    ensures
        after.value(c) == value,
        d != c ==> after.value(d) == before.value(d),
        after.levels() == before.levels(),
{
}

/// The levels of a hierarchy, the root's first in the hierarchy and last among the levels: a node
/// has two to the power of the given number of cells along an axis, a cell of a leaf is a voxel, and
/// a cell of any other node is as wide as a node of the level below.
pub proof fn law_levels_of_hierarchy(hierarchy: Seq<u32>, i: int)
    requires
        hierarchy_ok(hierarchy),
        0 <= i < hierarchy.len(),
    ensures
        ({
            let levels = levels_of(hierarchy);
            let n = hierarchy.len() as int;
            &&& levels.len() == n
            &&& levels[n - 1 - i].fan == vstd::arithmetic::power2::pow2(hierarchy[i] as nat)
            &&& levels[0].cell == 1
            &&& i > 0 ==> levels[n - i].cell == levels[n - i - 1].cell * levels[n - i - 1].fan
        }),
    decreases hierarchy.len(),
{
    lemma_levels_of(hierarchy);
    lemma_fan(hierarchy[0]);
    if i > 0 {
        let rest = hierarchy.skip(1);
        assert forall|k: int| 0 <= k < rest.len() implies #[trigger] rest[k] <= 8 by {
            assert(rest[k] == hierarchy[k + 1]);
        }
        law_levels_of_hierarchy(rest, i - 1);
        assert(rest[i - 1] == hierarchy[i]);
    }
}

/// The cell of a node that a voxel lies in is told by how many cells it is from the start of the
/// node along each axis, the first axis counting most.
pub proof fn law_slot(level: Level, c: UVec3)
    requires
        1 <= level.fan <= 256,
        1 <= level.cell,
    ensures
        ({
            let n = level.fan as int;
            let x = c.x / level.cell % level.fan;
            let y = c.y / level.cell % level.fan;
            let z = c.z / level.cell % level.fan;
            &&& slot(level, c) == (x * n + y) * n + z
            &&& 0 <= slot(level, c) < n * n * n
        }),
{
    lemma_slot_bound(level, c);
}

/// A listed leaf tells the values of the voxels of its cube, in the order of its cells.
pub proof fn law_leaf_tells_values<V: Copy>(tree: Tree<V>, index: int, c: UVec3)
    requires
        tree.wf(),
        0 <= index < tree.leaves().len(),
        tree.covers(c),
        in_cube(tree.leaves()[index].0, tree.levels()[0].fan as int, c),
    ensures
        ({
            let n = tree.levels()[0].fan;
            let s = (c.x % n * n + c.y % n) * n + c.z % n;
            tree.pools()[0][tree.leaves()[index].1 as int] matches NodeView::Leaf { values }
                && values.len() == n * n * n && tree.value(c) == values[s]
        }),
{
    let levels = tree.levels();
    let pools = tree.pools();
    let level = (levels.len() - 1) as nat;
    let base = UVec3 { x: 0, y: 0, z: 0 };
    let whole = cells(levels.last()) as nat;
    let leaf = tree.leaves()[index].1;
    lemma_root_cube(tree);
    lemma_leaf_cube(levels, pools, level, 0, base, whole, index, c);
    lemma_find_in_leaf(levels, pools, pools, level, 0, c);
    lemma_leaf_in_pool(levels, pools, level, 0, c);
    assert(node_fits(pools[0][leaf as int], levels, 0, 0));
    lemma_slot_bound(levels[0], c);
}

/// Every voxel that has a value lies in the cube of a listed leaf. Told is its place in the list.
pub proof fn law_value_has_leaf<V: Copy>(tree: Tree<V>, c: UVec3) -> (i: int)
    requires
        tree.wf(),
        tree.covers(c),
        tree.value(c) is Some,
    ensures
        0 <= i < tree.leaves().len(),
        in_cube(tree.leaves()[i].0, tree.levels()[0].fan as int, c),
{
    let levels = tree.levels();
    let pools = tree.pools();
    let level = (levels.len() - 1) as nat;
    let base = UVec3 { x: 0, y: 0, z: 0 };
    let whole = cells(levels.last()) as nat;
    lemma_root_cube(tree);
    lemma_find_in_leaf(levels, pools, pools, level, 0, c);
    lemma_slot_bound(levels.last(), c);
    lemma_leaf_listed(levels, pools, level, 0, base, whole, c)
}

/// Whether a voxel comes before another: at the highest level at which they are in different cells,
/// its cell comes first.
pub open spec fn precedes(levels: Seq<Level>, level: nat, c: UVec3, d: UVec3) -> bool
    decreases level,
{
    ||| slot(levels[level as int], c) < slot(levels[level as int], d)
    ||| slot(levels[level as int], c) == slot(levels[level as int], d) && level > 0 && precedes(
        levels,
        (level - 1) as nat,
        c,
        d,
    )
}

/// Voxels are listed in the order of the cells that they lie in, from the root down.
pub proof fn law_iter_in_order<V: Copy>(tree: Tree<V>, i: int, j: int)
    requires
        tree.wf(),
        0 <= i < j < tree.voxels().len(),
    ensures
        precedes(
            tree.levels(),
            (tree.levels().len() - 1) as nat,
            tree.voxels()[i],
            tree.voxels()[j],
        ),
{
    lemma_root_cube(tree);
    lemma_voxels_in_order(
        tree.levels(),
        tree.pools(),
        (tree.levels().len() - 1) as nat,
        0,
        UVec3 { x: 0, y: 0, z: 0 },
        cells(tree.levels().last()) as nat,
        i,
        j,
    );
}

proof fn lemma_voxels_in_order<V>(
    levels: Seq<Level>,
    pools: Pools<V>,
    level: nat,
    node: int,
    base: UVec3,
    count: nat,
    i: int,
    j: int,
)
    requires
        levels_ok(levels),
        pools_ok(levels, pools),
        level < levels.len(),
        0 <= node < pools[level as int].len(),
        aligned(levels, level as int, base),
        count <= cells(levels[level as int]),
        0 <= i < j < voxels_under(levels, pools, level, node, base, count).len(),
    ensures
        precedes(
            levels,
            level,
            voxels_under(levels, pools, level, node, base, count)[i],
            voxels_under(levels, pools, level, node, base, count)[j],
        ),
    decreases level, count,
{
    let here = levels[level as int];
    let list = voxels_under(levels, pools, level, node, base, count);
    if count > 0 {
        let k = count - 1;
        let before = voxels_under(levels, pools, level, node, base, k as nat);
        let at = cell_base(here, base, k);
        let c = list[i];
        let d = list[j];
        assert(node_fits(
            pools[level as int][node],
            levels,
            level as int,
            if level > 0 {
                pools[level - 1].len() as int
            } else {
                0
            },
        ));
        lemma_cell_of(levels, level as int, base, c, k);
        lemma_cell_of(levels, level as int, base, d, k);
        if j < before.len() {
            assert(list[i] == before[i] && list[j] == before[j]);
            lemma_voxels_in_order(levels, pools, level, node, base, k as nat, i, j);
        } else {
            if i < before.len() {
                assert(list[i] == before[i]);
                assert(before.contains(c));
                lemma_voxels_under(levels, pools, level, node, base, k as nat, c);
            }
            if level == 0 {
                assert(d == at);
                assert(in_cube(at, 1, d));
            } else if let Some(child) = child_at(pools[level as int][node], k) {
                lemma_cell_aligned(levels, level as int, base, k);
                lemma_cell_index(0, 0, 0, levels[level - 1].fan as int);
                let below = (level - 1) as nat;
                let all = cells(levels[level - 1]) as nat;
                let under = voxels_under(levels, pools, below, child as int, at, all);
                assert(list == before + under);
                assert(under[j - before.len()] == d);
                assert(under.contains(d));
                lemma_voxels_under(levels, pools, below, child as int, at, all, d);
                if i >= before.len() {
                    assert(under[i - before.len()] == c);
                    assert(under.contains(c));
                    lemma_voxels_under(levels, pools, below, child as int, at, all, c);
                    lemma_voxels_in_order(
                        levels,
                        pools,
                        below,
                        child as int,
                        at,
                        all,
                        i - before.len(),
                        j - before.len(),
                    );
                }
            }
        }
    }
}

/// Leaves are listed in the order of the cells that they lie in, from the root down.
pub proof fn law_leaves_in_order<V: Copy>(tree: Tree<V>, i: int, j: int)
    requires
        tree.wf(),
        0 <= i < j < tree.leaves().len(),
    ensures
        precedes(
            tree.levels(),
            (tree.levels().len() - 1) as nat,
            tree.leaves()[i].0,
            tree.leaves()[j].0,
        ),
{
    lemma_root_cube(tree);
    lemma_leaves_in_order(
        tree.levels(),
        tree.pools(),
        (tree.levels().len() - 1) as nat,
        0,
        UVec3 { x: 0, y: 0, z: 0 },
        cells(tree.levels().last()) as nat,
        i,
        j,
    );
}

proof fn lemma_leaves_in_order<V>(
    levels: Seq<Level>,
    pools: Pools<V>,
    level: nat,
    node: int,
    base: UVec3,
    count: nat,
    i: int,
    j: int,
)
    requires
        levels_ok(levels),
        pools_ok(levels, pools),
        level < levels.len(),
        0 <= node < pools[level as int].len(),
        aligned(levels, level as int, base),
        count <= cells(levels[level as int]),
        0 <= i < j < leaves_under(levels, pools, level, node, base, count).len(),
    ensures
        precedes(
            levels,
            level,
            leaves_under(levels, pools, level, node, base, count)[i].0,
            leaves_under(levels, pools, level, node, base, count)[j].0,
        ),
    decreases level, count,
{
    let here = levels[level as int];
    let all = leaves_under(levels, pools, level, node, base, count);
    if level > 0 {
        let k = count - 1;
        let before = leaves_under(levels, pools, level, node, base, k as nat);
        if j < before.len() {
            lemma_leaves_in_order(levels, pools, level, node, base, k as nat, i, j);
            assert(all[i] == before[i] && all[j] == before[j]);
        } else {
            let child = child_at(pools[level as int][node], k)->0;
            let below = (level - 1) as nat;
            let whole = cells(levels[level - 1]) as nat;
            let at = cell_base(here, base, k);
            let under = leaves_under(levels, pools, below, child as int, at, whole);
            let later = j - before.len();
            let first = all[i].0;
            let second = all[j].0;
            assert(node_fits(
                pools[level as int][node],
                levels,
                level as int,
                pools[level - 1].len() as int,
            ));
            lemma_cell_aligned(levels, level as int, base, k);
            lemma_cell_index(0, 0, 0, levels[level - 1].fan as int);
            assert(all[j] == under[later]);
            lemma_leaf_cube(levels, pools, below, child as int, at, whole, later, second);
            lemma_cell_of(levels, level as int, base, second, k);
            if i >= before.len() {
                let earlier = i - before.len();
                assert(all[i] == under[earlier]);
                lemma_leaf_cube(levels, pools, below, child as int, at, whole, earlier, first);
                lemma_cell_of(levels, level as int, base, first, k);
                lemma_leaves_in_order(
                    levels,
                    pools,
                    below,
                    child as int,
                    at,
                    whole,
                    earlier,
                    later,
                );
            } else {
                assert(all[i] == before[i]);
                lemma_leaf_cube(levels, pools, level, node, base, k as nat, i, first);
            }
        }
    }
}

} // verus!
