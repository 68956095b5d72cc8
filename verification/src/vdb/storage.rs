//! Where the nodes of a tree are kept for the device.

use super::encoding;
use super::encoding::NodeFormat;
use super::encoding::NodeLayout;
use super::tree;
use super::tree::Level;
use super::tree::NodeView;
use super::tree::Tree;
use crate::math::UVec3;
use vstd::prelude::*;

verus! {

/// Bytes in which other sizes keep what both have room for: bytes that come anew are zero.
pub open spec fn resized(bytes: Seq<u8>, size: usize) -> Seq<u8> {
    Seq::new(
        size as nat,
        |i: int|
            if i < bytes.len() {
                bytes[i]
            } else {
                0
            },
    )
}

/// Bytes that others have been written over, from one on.
pub open spec fn overwritten(bytes: Seq<u8>, at: int, part: Seq<u8>) -> Seq<u8> {
    Seq::new(
        bytes.len(),
        |i: int|
            if at <= i < at + part.len() {
                part[i - at]
            } else {
                bytes[i]
            },
    )
}

/// Whether bytes hold others, from one on.
pub open spec fn holds(bytes: Seq<u8>, at: int, part: Seq<u8>) -> bool {
    0 <= at && at + part.len() <= bytes.len() && bytes.subrange(at, at + part.len()) == part
}

/// Storage that changes its size keeps the bytes that there is still room for, and any others are
/// zero. Bytes that are written take the places from one on, and all others stay.
pub proof fn law_storage_bytes(bytes: Seq<u8>, size: usize, at: int, part: Seq<u8>, i: int)
    requires
        0 <= at,
        at + part.len() <= bytes.len(),
    ensures
        resized(bytes, size).len() == size,
        0 <= i < size && i < bytes.len() ==> resized(bytes, size)[i] == bytes[i],
        bytes.len() <= i < size ==> resized(bytes, size)[i] == 0,
        overwritten(bytes, at, part).len() == bytes.len(),
        0 <= i < part.len() ==> overwritten(bytes, at, part)[at + i] == part[i],
        0 <= i < at || at + part.len() <= i < bytes.len() ==> overwritten(bytes, at, part)[i]
            == bytes[i],
{
}

proof fn lemma_holds_written(bytes: Seq<u8>, at: int, part: Seq<u8>)
    requires
        0 <= at,
        at + part.len() <= bytes.len(),
    ensures
        holds(overwritten(bytes, at, part), at, part),
{
    assert(overwritten(bytes, at, part).subrange(at, at + part.len()) =~= part);
}

proof fn lemma_holds_beside(bytes: Seq<u8>, at: int, part: Seq<u8>, kept_at: int, kept: Seq<u8>)
    requires
        holds(bytes, kept_at, kept),
        kept_at + kept.len() <= at || at + part.len() <= kept_at,
    ensures
        holds(overwritten(bytes, at, part), kept_at, kept),
{
    let after = overwritten(bytes, at, part);
    assert(after.subrange(kept_at, kept_at + kept.len()) =~= bytes.subrange(
        kept_at,
        kept_at + kept.len(),
    ));
}

proof fn lemma_holds_resized(bytes: Seq<u8>, size: usize, at: int, part: Seq<u8>)
    requires
        holds(bytes, at, part),
        bytes.len() <= size,
    ensures
        holds(resized(bytes, size), at, part),
{
    assert(resized(bytes, size).subrange(at, at + part.len()) =~= bytes.subrange(
        at,
        at + part.len(),
    ));
}

/// Storage for the nodes of a level that the device can read.
pub trait PoolStorage: Sized {
    /// The bytes of the storage.
    spec fn bytes(&self) -> Seq<u8>;

    /// The address under which the device sees the storage, zero where it does not.
    spec fn address(&self) -> u64;

    /// The number of bytes of the storage.
    fn size(&self) -> (r: usize)
        ensures
            r == self.bytes().len(),
    ;

    /// The address under which the device sees the storage, zero where it does not.
    fn device_address(&self) -> (r: u64)
        ensures
            r == self.address(),
    ;

    /// Changes the size of the storage, which is then seen under another address. The bytes that
    /// both sizes have room for stay, and any others are zero.
    fn resize(&mut self, size: usize, address: u64)
        ensures
            final(self).bytes() == resized(old(self).bytes(), size),
            final(self).address() == address,
    ;

    /// Writes bytes over those of the storage, from one on.
    fn write(&mut self, at: usize, part: &[u8])
        requires
            at + part@.len() <= old(self).bytes().len(),
        ensures
            final(self).bytes() == overwritten(old(self).bytes(), at as int, part@),
            final(self).address() == old(self).address(),
    ;
}

/// Where the root of a tree is kept for the device: nowhere, or in storage of its own.
pub enum RootStorage<S> {
    Inline,
    External { storage: S },
}

impl<S: PoolStorage> RootStorage<S> {
    /// The storage of its own, where there is one.
    pub open spec fn external_storage(&self) -> Option<S> {
        match *self {
            RootStorage::Inline => None,
            RootStorage::External { storage } => Some(storage),
        }
    }

    /// A root that is kept with the tree alone.
    pub fn inline() -> (r: RootStorage<S>)
        ensures
            r.external_storage() is None,
    {
        RootStorage::Inline
    }

    /// A root that is kept in the given storage, which is made as large as one root and holds its
    /// bytes from the first on.
    pub fn external(storage: S, layout: NodeLayout, root: &[u8], address: u64) -> (r: RootStorage<S>)
        requires
            encoding::layout_ok(layout),
            root@.len() == layout.size,
        ensures
            r.external_storage() matches Some(kept) && holds_root(
                kept,
                storage,
                layout,
                root@,
                address,
            ),
    {
        let mut kept: S = storage;
        kept.resize(layout.padded(), address);
        proof {
            lemma_holds_written(kept.bytes(), 0, root@);
        }
        kept.write(0, root);
        RootStorage::External { storage: kept }
    }

    /// The storage of its own, where there is one.
    pub fn storage(&self) -> (r: Option<&S>)
        ensures
            r is Some <==> self.external_storage() is Some,
            r matches Some(storage) ==> *storage == self.external_storage()->0,
    {
        match self {
            RootStorage::Inline => None,
            RootStorage::External { storage } => Some(storage),
        }
    }

    /// The storage of its own, where there is one, to be written.
    pub fn storage_mut(&mut self) -> (r: Option<&mut S>)
        ensures
            r is Some <==> old(self).external_storage() is Some,
            r matches Some(storage) ==> *storage == old(self).external_storage()->0
                && final(self).external_storage() == Some(*final(storage)),
            r is None ==> *final(self) == *old(self),
    {
        match self {
            RootStorage::Inline => None,
            RootStorage::External { storage } => Some(storage),
        }
    }
}

/// Whether storage is what was given, made as large as one root and with its bytes from the first
/// on.
pub open spec fn holds_root<S: PoolStorage>(
    kept: S,
    given: S,
    layout: NodeLayout,
    root: Seq<u8>,
    address: u64,
) -> bool {
    &&& kept.bytes().len() == encoding::padded_size(layout)
    &&& kept.bytes() == overwritten(
        resized(given.bytes(), encoding::padded_size(layout) as usize),
        0,
        root,
    )
    &&& holds(kept.bytes(), 0, root)
    &&& kept.address() == address
}

/// How far apart the nodes of a level stand in storage.
pub open spec fn stride<V, F: NodeFormat<V>>(format: F, levels: Seq<Level>, level: int) -> int {
    encoding::padded_size(format.layout_of(levels, level))
}

/// Whether bytes hold the nodes of a pool one behind the other.
pub open spec fn stores<V, F: NodeFormat<V>>(
    format: F,
    levels: Seq<Level>,
    level: int,
    pool: Seq<NodeView<V>>,
    bytes: Seq<u8>,
) -> bool {
    forall|n: int|
        0 <= n < pool.len() ==> holds(
            bytes,
            n * stride(format, levels, level),
            format.bytes_of(#[trigger] pool[n]),
        )
}

/// Places in storage that are multiples of a distance lie that distance apart.
proof fn lemma_apart(n: int, m: int, stride: int)
    requires
        0 <= n,
        0 <= m,
        0 <= stride,
    ensures
        0 <= n * stride,
        n * stride + stride == (n + 1) * stride,
        n < m ==> n * stride + stride <= m * stride,
{
    assert(n * stride + stride == (n + 1) * stride) by (nonlinear_arith);
    assert(0 <= n * stride) by (nonlinear_arith)
        requires
            0 <= n,
            0 <= stride,
    ;
    if n < m {
        assert((n + 1) * stride <= m * stride) by (nonlinear_arith)
            requires
                n + 1 <= m,
                0 <= stride,
        ;
    }
}

/// Whether a node of a pool, where there is such a node, is as it was, or is a given one.
spec fn unchanged<V>(
    before: Seq<NodeView<V>>,
    after: Seq<NodeView<V>>,
    n: int,
    node: int,
) -> bool {
    0 <= n < after.len() && n != node ==> n < before.len() && after[n] == before[n]
}

/// Storage that held a pool holds the pool in which one node has changed or come, once that node has
/// been written.
proof fn lemma_stores_written<V, F: NodeFormat<V>>(
    format: F,
    levels: Seq<Level>,
    level: int,
    before: Seq<NodeView<V>>,
    after: Seq<NodeView<V>>,
    node: int,
    bytes: Seq<u8>,
)
    requires
        encoding::layout_ok(format.layout_of(levels, level)),
        stores(format, levels, level, before, bytes),
        0 <= node < after.len(),
        forall|n: int| #[trigger] unchanged(before, after, n, node),
        forall|n: int|
            0 <= n < after.len() ==> format.bytes_of(#[trigger] after[n]).len() == format.layout_of(
                levels,
                level,
            ).size,
        (node + 1) * stride(format, levels, level) <= bytes.len(),
    ensures
        stores(
            format,
            levels,
            level,
            after,
            overwritten(
                bytes,
                node * stride(format, levels, level),
                format.bytes_of(after[node]),
            ),
        ),
{
    let apart = stride(format, levels, level);
    let part = format.bytes_of(after[node]);
    let written = overwritten(bytes, node * apart, part);
    encoding::lemma_padded_holds(format.layout_of(levels, level));
    lemma_apart(node, node, apart);
    lemma_holds_written(bytes, node * apart, part);
    assert forall|n: int| 0 <= n < after.len() implies holds(
        written,
        n * apart,
        format.bytes_of(#[trigger] after[n]),
    ) by {
        lemma_apart(n, node, apart);
        lemma_apart(node, n, apart);
        if n != node {
            assert(unchanged(before, after, n, node));
            assert(holds(bytes, n * apart, format.bytes_of(before[n])));
            lemma_holds_beside(bytes, node * apart, part, n * apart, format.bytes_of(after[n]));
        }
    }
}

proof fn lemma_stores_resized<V, F: NodeFormat<V>>(
    format: F,
    levels: Seq<Level>,
    level: int,
    pool: Seq<NodeView<V>>,
    bytes: Seq<u8>,
    size: usize,
)
    requires
        stores(format, levels, level, pool, bytes),
        bytes.len() <= size,
    ensures
        stores(format, levels, level, pool, resized(bytes, size)),
{
    assert forall|n: int| 0 <= n < pool.len() implies holds(
        resized(bytes, size),
        n * stride(format, levels, level),
        format.bytes_of(#[trigger] pool[n]),
    ) by {
        lemma_holds_resized(
            bytes,
            size,
            n * stride(format, levels, level),
            format.bytes_of(pool[n]),
        );
    }
}

/// A node of a tree is one of its level.
proof fn lemma_fits<V: Copy>(tree: Tree<V>, level: int, node: int)
    requires
        tree.wf(),
        0 <= level < tree.levels().len(),
        0 <= node < tree.pools()[level].len(),
    ensures
        exists|below: int| #[trigger]
            tree::node_fits(tree.pools()[level][node], tree.levels(), level, below),
{
    assert(tree::node_fits(
        tree.pools()[level][node],
        tree.levels(),
        level,
        if level > 0 {
            tree.pools()[level - 1].len() as int
        } else {
            0
        },
    ));
}

/// The nodes of a level take as many bytes as their layout says.
proof fn lemma_sizes<V: Copy, F: NodeFormat<V>>(tree: Tree<V>, format: F, level: int)
    requires
        tree.wf(),
        0 <= level < tree.levels().len(),
    ensures
        forall|n: int|
            0 <= n < tree.pools()[level].len() ==> format.bytes_of(
                #[trigger] tree.pools()[level][n],
            ).len() == format.layout_of(tree.levels(), level).size,
{
    assert forall|n: int| 0 <= n < tree.pools()[level].len() implies format.bytes_of(
        #[trigger] tree.pools()[level][n],
    ).len() == format.layout_of(tree.levels(), level).size by {
        lemma_fits(tree, level, n);
        let below = choose|below: int| #[trigger]
            tree::node_fits(tree.pools()[level][n], tree.levels(), level, below);
        format.law_bytes_fill_layout(tree.levels(), level, tree.pools()[level][n], below);
    }
}

/// One step down a path.
proof fn lemma_step_down<V>(
    levels: Seq<Level>,
    pools: tree::Pools<V>,
    top: nat,
    node: int,
    c: UVec3,
    level: nat,
)
    requires
        level <= top,
        tree::node_at(levels, pools, top, 0, c, level) == Some(node),
    ensures
        level > 0 ==> tree::node_at(levels, pools, top, 0, c, (level - 1) as nat) == (
        match tree::child_at(
            pools[level as int][node],
            tree::slot(levels[level as int], c),
        ) {
            Some(child) => Some(child as int),
            None => None,
        }),
        level > 0 && tree::child_at(
            pools[level as int][node],
            tree::slot(levels[level as int], c),
        ) is None ==> forall|l: nat|
            l < level ==> #[trigger] tree::node_at(levels, pools, top, 0, c, l) is None,
{
    if level > 0 {
        reveal_with_fuel(tree::node_at, 2);
        tree::lemma_node_at_split(levels, pools, top, 0, c, level, (level - 1) as nat);
        if tree::child_at(pools[level as int][node], tree::slot(levels[level as int], c)) is None {
            assert forall|l: nat| l < level implies #[trigger] tree::node_at(
                levels,
                pools,
                top,
                0,
                c,
                l,
            ) is None by {
                tree::lemma_node_at_split(levels, pools, top, 0, c, level, l);
            }
        }
    }
}

/// Writing the node of a path at a level stores that level.
proof fn lemma_path_stored<V, F: NodeFormat<V>>(
    format: F,
    levels: Seq<Level>,
    before: tree::Pools<V>,
    after: tree::Pools<V>,
    top: nat,
    c: UVec3,
    level: int,
    node: int,
    bytes: Seq<u8>,
)
    requires
        encoding::layout_ok(format.layout_of(levels, level)),
        tree::path_only(levels, before, after, top, 0, c),
        0 <= level <= top,
        tree::node_at(levels, after, top, 0, c, level as nat) == Some(node),
        0 <= node < after[level].len(),
        stores(format, levels, level, before[level], bytes),
        forall|n: int|
            0 <= n < after[level].len() ==> format.bytes_of(#[trigger] after[level][n]).len()
                == format.layout_of(levels, level).size,
        (node + 1) * stride(format, levels, level) <= bytes.len(),
    ensures
        stores(
            format,
            levels,
            level,
            after[level],
            overwritten(
                bytes,
                node * stride(format, levels, level),
                format.bytes_of(after[level][node]),
            ),
        ),
{
    assert forall|n: int| #[trigger] unchanged(before[level], after[level], n, node) by {
        assert(tree::kept(
            before,
            after,
            level,
            n,
            tree::node_at(levels, after, top, 0, c, level as nat),
        ));
    }
    lemma_stores_written(format, levels, level, before[level], after[level], node, bytes);
}

/// Storage of a level that a path does not come to still holds its nodes.
proof fn lemma_stores_kept<V, F: NodeFormat<V>>(
    format: F,
    levels: Seq<Level>,
    before: tree::Pools<V>,
    after: tree::Pools<V>,
    top: nat,
    c: UVec3,
    level: int,
    bytes: Seq<u8>,
)
    requires
        tree::path_only(levels, before, after, top, 0, c),
        0 <= level <= top,
        tree::node_at(levels, after, top, 0, c, level as nat) is None,
        stores(format, levels, level, before[level], bytes),
    ensures
        stores(format, levels, level, after[level], bytes),
{
    assert forall|n: int| 0 <= n < after[level].len() implies holds(
        bytes,
        n * stride(format, levels, level),
        format.bytes_of(#[trigger] after[level][n]),
    ) by {
        assert(tree::kept(
            before,
            after,
            level,
            n,
            tree::node_at(levels, after, top, 0, c, level as nat),
        ));
        assert(after[level][n] == before[level][n]);
    }
}

/// Whether the nodes of each level, and one more, can be counted in bytes.
pub open spec fn storable<V: Copy, F: NodeFormat<V>>(format: F, tree: Tree<V>) -> bool {
    forall|l: int|
        0 <= l < tree.levels().len() - 1 ==> ((#[trigger] tree.pools()[l]).len() + 1) * stride(
            format,
            tree.levels(),
            l,
        ) <= usize::MAX
}

/// Whether a level's storage has stayed where it was, or has been given a new address.
pub open spec fn placed<S: PoolStorage, A: FnMut(usize, usize) -> u64>(
    before: Option<S>,
    after: Option<S>,
    level: int,
    allocate: A,
) -> bool {
    &&& before is Some <==> after is Some
    &&& after matches Some(storage) ==> storage.address() == before->0.address() || exists|size: usize|
        #[trigger] call_ensures(allocate, (level as usize, size), storage.address())
}

/// Writes the nodes of a level into storage, one behind the other.
fn store_pool<V: Copy, S: PoolStorage, F: NodeFormat<V>>(
    storage: &mut S,
    format: &F,
    tree: &Tree<V>,
    level: usize,
    apart: usize,
)
    requires
        tree.wf(),
        level < tree.levels().len(),
        apart == stride(*format, tree.levels(), level as int),
        encoding::layout_ok(format.layout_of(tree.levels(), level as int)),
        tree.pools()[level as int].len() * apart <= old(storage).bytes().len(),
    ensures
        stores(
            *format,
            tree.levels(),
            level as int,
            tree.pools()[level as int],
            final(storage).bytes(),
        ),
        final(storage).address() == old(storage).address(),
{
    let ghost pool = tree.pools()[level as int];
    let count: usize = tree.pool_len(level);
    let size: usize = storage.size();
    proof {
        lemma_sizes(*tree, *format, level as int);
        encoding::lemma_padded_holds(format.layout_of(tree.levels(), level as int));
        assert(pool.take(0).len() == 0);
    }
    let mut n: usize = 0;
    while n < count
        invariant
            n <= count,
            tree.wf(),
            level < tree.levels().len(),
            pool == tree.pools()[level as int],
            count == pool.len(),
            pool.len() <= u32::MAX,
            apart == stride(*format, tree.levels(), level as int),
            encoding::layout_ok(format.layout_of(tree.levels(), level as int)),
            format.layout_of(tree.levels(), level as int).size <= apart,
            forall|k: int|
                0 <= k < pool.len() ==> format.bytes_of(#[trigger] pool[k]).len()
                    == format.layout_of(tree.levels(), level as int).size,
            size == storage.bytes().len(),
            pool.len() * apart <= size,
            stores(*format, tree.levels(), level as int, pool.take(n as int), storage.bytes()),
            storage.address() == old(storage).address(),
        decreases count - n,
    {
        proof {
            lemma_fits(*tree, level as int, n as int);
            lemma_apart(n as int, pool.len() as int, apart as int);
            let earlier = pool.take(n as int);
            let later = pool.take(n + 1);
            assert forall|k: int| #[trigger] unchanged(earlier, later, k, n as int) by {}
            assert forall|k: int| 0 <= k < later.len() implies format.bytes_of(
                #[trigger] later[k],
            ).len() == format.layout_of(tree.levels(), level as int).size by {
                assert(later[k] == pool[k]);
            }
            lemma_stores_written(
                *format,
                tree.levels(),
                level as int,
                earlier,
                later,
                n as int,
                storage.bytes(),
            );
        }
        let bytes: Vec<u8> = format.encode(tree.metas(), level, tree.get_node(level, n as u32));
        storage.write(n * apart, bytes.as_slice());
        n += 1;
    }
    assert(pool.take(n as int) =~= pool);
}

/// A tree together with where its nodes are kept for the device: those of each level below the root
/// in storage of their own or with the tree alone, and likewise the root. Storage holds the nodes as
/// they are, through every change.
pub struct StoredTree<V, S, F> {
    tree: Tree<V>,
    format: F,
    pool_storages: Vec<Option<S>>,
    root: RootStorage<S>,
}

impl<V: Copy, S: PoolStorage, F: NodeFormat<V>> StoredTree<V, S, F> {
    /// The tree.
    pub closed spec fn held(&self) -> Tree<V> {
        self.tree
    }

    /// How nodes are written.
    pub closed spec fn written_as(&self) -> F {
        self.format
    }

    /// The storage of each level below the root, where it has one.
    pub closed spec fn storages(&self) -> Seq<Option<S>> {
        self.pool_storages@
    }

    /// The storage of the root, where it has one.
    pub closed spec fn root_store(&self) -> Option<S> {
        self.root.external_storage()
    }

    /// Whether the tree is well-formed and storage holds its nodes: that of a level those of its
    /// pool, one behind the other, and that of the root exactly one root, from the first byte on.
    pub open spec fn wf(&self) -> bool {
        let levels = self.held().levels();
        let pools = self.held().pools();
        let top = levels.len() - 1;
        &&& self.held().wf()
        &&& self.storages().len() == top
        &&& forall|l: int|
            0 <= l < top ==> (#[trigger] self.storages()[l] matches Some(storage) ==> stores(
                self.written_as(),
                levels,
                l,
                pools[l],
                storage.bytes(),
            ))
        &&& self.root_store() matches Some(storage) ==> {
            &&& storage.bytes().len() == stride(self.written_as(), levels, top)
            &&& holds(storage.bytes(), 0, self.written_as().bytes_of(pools[top][0]))
        }
    }

    /// Whether another tree is kept in the same way: in the same format, and in storage of its own
    /// where this one is.
    pub open spec fn kept_like(&self, other: StoredTree<V, S, F>) -> bool {
        &&& self.written_as() == other.written_as()
        &&& self.held().levels() == other.held().levels()
        &&& self.storages().len() == other.storages().len()
        &&& forall|l: int|
            0 <= l < self.storages().len() ==> (#[trigger] self.storages()[l] is Some
                <==> other.storages()[l] is Some)
        &&& self.root_store() is Some <==> other.root_store() is Some
        &&& self.root_store() matches Some(storage) ==> storage.address()
            == other.root_store()->0.address()
    }

    /// A tree without values, all of which is kept with it alone.
    pub fn new(hierarchy: &[u32], format: F) -> (r: StoredTree<V, S, F>)
        requires
            tree::hierarchy_ok(hierarchy@),
        ensures
            r.wf(),
            r.written_as() == format,
            r.held().levels() == tree::levels_of(hierarchy@),
            forall|l: int| 0 <= l < r.storages().len() ==> r.held().pools()[l].len() == 0,
            forall|c: UVec3| #[trigger] r.held().value(c) is None,
            forall|l: int| 0 <= l < r.storages().len() ==> #[trigger] r.storages()[l] is None,
            r.root_store() is None,
    {
        let tree: Tree<V> = Tree::new(hierarchy);
        let mut pool_storages: Vec<Option<S>> = Vec::new();
        let pools: usize = tree.level_count() - 1;
        while pool_storages.len() < pools
            invariant
                pool_storages@.len() <= pools,
                forall|l: int|
                    0 <= l < pool_storages@.len() ==> #[trigger] pool_storages@[l] is None,
            decreases pools - pool_storages@.len(),
        {
            pool_storages.push(None);
        }
        StoredTree { tree, format, pool_storages, root: RootStorage::inline() }
    }

    /// A tree without values whose leaves are kept in the given storage.
    pub fn new_with_leaf_storage(hierarchy: &[u32], format: F, storage: S) -> (r: StoredTree<V, S, F>)
        requires
            tree::hierarchy_ok(hierarchy@),
            tree::levels_of(hierarchy@).len() >= 2,
        ensures
            r.wf(),
            r.written_as() == format,
            r.held().levels() == tree::levels_of(hierarchy@),
            forall|l: int| 0 <= l < r.storages().len() ==> r.held().pools()[l].len() == 0,
            forall|c: UVec3| #[trigger] r.held().value(c) is None,
            r.storages()[0] == Some(storage),
            forall|l: int| 0 < l < r.storages().len() ==> #[trigger] r.storages()[l] is None,
            r.root_store() is None,
    {
        let mut stored: StoredTree<V, S, F> = Self::new(hierarchy, format);
        stored.pool_storages[0] = Some(storage);
        stored
    }

    /// A tree without values whose root and all pooled node levels use storage that the caller
    /// provides.
    ///
    /// The storage of each level is what `storage_for_level` gives for its number and the layout of
    /// its nodes: level 0 is that of the leaves, the last level is that of the root. Unlike with
    /// `new_with_leaf_storage` the root itself is kept in storage, which holds exactly one root, from
    /// the first byte on; the device sees it under `root_address`.
    pub fn new_with_node_storage<G: FnMut(usize, NodeLayout) -> S>(
        hierarchy: &[u32],
        format: F,
        root_address: u64,
        mut storage_for_level: G,
    ) -> (r: StoredTree<V, S, F>)
        requires
            tree::hierarchy_ok(hierarchy@),
            forall|l: int|
                0 <= l < tree::levels_of(hierarchy@).len() ==> call_requires(
                    storage_for_level,
                    (l as usize, #[trigger] format.layout_of(tree::levels_of(hierarchy@), l)),
                ),
        ensures
            r.wf(),
            r.written_as() == format,
            r.held().levels() == tree::levels_of(hierarchy@),
            forall|l: int| 0 <= l < r.storages().len() ==> r.held().pools()[l].len() == 0,
            forall|c: UVec3| #[trigger] r.held().value(c) is None,
            forall|l: int|
                0 <= l < r.storages().len() ==> (#[trigger] r.storages()[l]) is Some
                    && call_ensures(
                    storage_for_level,
                    (l as usize, format.layout_of(tree::levels_of(hierarchy@), l)),
                    r.storages()[l]->0,
                ),
            ({
                let levels = tree::levels_of(hierarchy@);
                let top = levels.len() - 1;
                exists|given: S|
                    #[trigger] call_ensures(
                        storage_for_level,
                        (top as usize, format.layout_of(levels, top)),
                        given,
                    ) && r.root_store() is Some && holds_root(
                        r.root_store()->0,
                        given,
                        format.layout_of(levels, top),
                        format.bytes_of(tree::blank(levels, top)),
                        root_address,
                    )
            }),
    {
        let tree: Tree<V> = Tree::new(hierarchy);
        let top: usize = tree.level_count() - 1;
        let mut pool_storages: Vec<Option<S>> = Vec::new();
        let ghost factory = storage_for_level;
        while pool_storages.len() < top
            invariant
                storage_for_level == factory,
                tree.wf(),
                top == tree.levels().len() - 1,
                pool_storages@.len() <= top,
                forall|l: int|
                    0 <= l < tree.levels().len() ==> call_requires(
                        storage_for_level,
                        (l as usize, #[trigger] format.layout_of(tree.levels(), l)),
                    ),
                forall|l: int|
                    0 <= l < pool_storages@.len() ==> (#[trigger] pool_storages@[l]) is Some
                        && call_ensures(
                        storage_for_level,
                        (l as usize, format.layout_of(tree.levels(), l)),
                        pool_storages@[l]->0,
                    ),
            decreases top - pool_storages@.len(),
        {
            let level: usize = pool_storages.len();
            let layout: NodeLayout = format.layout(tree.metas(), level);
            let storage: S = storage_for_level(level, layout);
            pool_storages.push(Some(storage));
        }
        let layout: NodeLayout = format.layout(tree.metas(), top);
        let given: S = storage_for_level(top, layout);
        proof {
            assert(tree.pools()[top as int].len() == 1);
            assert(tree::node_fits(
                tree.pools()[top as int][0],
                tree.levels(),
                top as int,
                if top > 0 {
                    tree.pools()[top - 1].len() as int
                } else {
                    0
                },
            ));
        }
        let root_bytes: Vec<u8> = format.encode(tree.metas(), top, tree.get_node(top, 0));
        let root: RootStorage<S> = RootStorage::external(
            given,
            layout,
            root_bytes.as_slice(),
            root_address,
        );
        StoredTree { tree, format, pool_storages, root }
    }

    /// Alias for `new_with_node_storage`.
    pub fn new_with_all_node_storage<G: FnMut(usize, NodeLayout) -> S>(
        hierarchy: &[u32],
        format: F,
        root_address: u64,
        storage_for_level: G,
    ) -> (r: StoredTree<V, S, F>)
        requires
            tree::hierarchy_ok(hierarchy@),
            forall|l: int|
                0 <= l < tree::levels_of(hierarchy@).len() ==> call_requires(
                    storage_for_level,
                    (l as usize, #[trigger] format.layout_of(tree::levels_of(hierarchy@), l)),
                ),
        ensures
            r.wf(),
            r.written_as() == format,
            r.held().levels() == tree::levels_of(hierarchy@),
            forall|l: int| 0 <= l < r.storages().len() ==> r.held().pools()[l].len() == 0,
            forall|c: UVec3| #[trigger] r.held().value(c) is None,
            forall|l: int|
                0 <= l < r.storages().len() ==> (#[trigger] r.storages()[l]) is Some
                    && call_ensures(
                    storage_for_level,
                    (l as usize, format.layout_of(tree::levels_of(hierarchy@), l)),
                    r.storages()[l]->0,
                ),
            ({
                let levels = tree::levels_of(hierarchy@);
                let top = levels.len() - 1;
                exists|given: S|
                    #[trigger] call_ensures(
                        storage_for_level,
                        (top as usize, format.layout_of(levels, top)),
                        given,
                    ) && r.root_store() is Some && holds_root(
                        r.root_store()->0,
                        given,
                        format.layout_of(levels, top),
                        format.bytes_of(tree::blank(levels, top)),
                        root_address,
                    )
            }),
    {
        Self::new_with_node_storage(hierarchy, format, root_address, storage_for_level)
    }

    /// Sets the value of a voxel, or takes it away, in the tree and in storage. Storage of a level that
    /// is too small for its nodes is made larger, at the address that `allocate` gives for the level
    /// and the new size.
    pub fn set_value<A: FnMut(usize, usize) -> u64>(
        &mut self,
        c: UVec3,
        value: Option<V>,
        mut allocate: A,
    )
        requires
            old(self).wf(),
            old(self).held().covers(c),
            tree::has_room(old(self).held().pools(), old(self).held().levels().len() - 1),
            storable(old(self).written_as(), old(self).held()),
            forall|level: usize, size: usize| #[trigger] call_requires(allocate, (level, size)),
        ensures
            final(self).wf(),
            tree::value_set(old(self).held(), final(self).held(), c, value),
            final(self).kept_like(*old(self)),
            final(self).written_as() == old(self).written_as(),
            final(self).storages().len() == old(self).storages().len(),
            final(self).root_store() is Some <==> old(self).root_store() is Some,
            forall|l: int|
                0 <= l < old(self).storages().len() ==> placed(
                    old(self).storages()[l],
                    #[trigger] final(self).storages()[l],
                    l,
                    allocate,
                ),
    {
        let ghost before = *self;
        let ghost allocator = allocate;
        let top: usize = self.tree.level_count() - 1;
        self.tree.set_value(c, value);
        let ghost held = self.tree;
        let ghost levels = held.levels();
        let ghost pools = held.pools();
        let ghost olds = before.held().pools();
        self.store_root();
        let mut level: usize = top;
        let mut next: Option<u32> = if top > 0 {
            self.tree.child(top, 0, c)
        } else {
            None
        };
        proof {
            assert(pools[top as int].len() == 1);
            lemma_step_down(levels, pools, top as nat, 0, c, top as nat);
        }
        while next.is_some()
            invariant
                allocate == allocator,
                forall|l: usize, size: usize| #[trigger] call_requires(allocate, (l, size)),
                self.tree == held,
                held.wf(),
                held.levels() == levels,
                held.pools() == pools,
                levels == before.held().levels(),
                olds == before.held().pools(),
                before.wf(),
                storable(before.written_as(), before.held()),
                self.format == before.written_as(),
                top == levels.len() - 1,
                level <= top,
                olds.len() == pools.len() == levels.len(),
                forall|l: int|
                    0 <= l < olds.len() ==> (#[trigger] pools[l]).len() <= olds[l].len() + 1,
                tree::path_only(levels, olds, pools, top as nat, 0, c),
                next matches Some(child) ==> 0 < level && child < pools[level - 1].len()
                    && tree::node_at(levels, pools, top as nat, 0, c, (level - 1) as nat) == Some(
                    child as int,
                ),
                next is None ==> forall|l: nat|
                    l < level ==> #[trigger] tree::node_at(levels, pools, top as nat, 0, c, l)
                        is None,
                self.pool_storages@.len() == top,
                forall|l: int|
                    0 <= l < level && l < top ==> #[trigger] self.pool_storages@[l]
                        == before.storages()[l],
                forall|l: int|
                    level <= l < top ==> ((#[trigger] self.pool_storages@[l]) matches Some(storage)
                        ==> stores(self.format, levels, l, pools[l], storage.bytes())),
                forall|l: int|
                    0 <= l < top ==> placed(
                        before.storages()[l],
                        #[trigger] self.pool_storages@[l],
                        l,
                        allocate,
                    ),
                self.root.external_storage() is Some <==> before.root_store() is Some,
                self.root.external_storage() matches Some(storage) ==> {
                    &&& storage.bytes().len() == stride(self.format, levels, top as int)
                    &&& holds(storage.bytes(), 0, self.format.bytes_of(pools[top as int][0]))
                    &&& storage.address() == before.root_store()->0.address()
                },
            decreases level,
        {
            if let Some(child) = next {
                let at: usize = level - 1;
                proof {
                    assert(pools[at as int].len() <= olds[at as int].len() + 1);
                    assert(before.held().pools()[at as int] == olds[at as int]);
                    assert(self.pool_storages@[at as int] == before.storages()[at as int]);
                    lemma_fits(self.tree, at as int, child as int);
                }
                let layout: NodeLayout = self.format.layout(self.tree.metas(), at);
                let apart: usize = layout.padded();
                proof {
                    lemma_apart(child as int, olds[at as int].len() as int + 1, apart as int);
                    encoding::lemma_padded_holds(layout);
                }
                let need: usize = child as usize * apart + apart;
                let bytes: Vec<u8> = self.format.encode(
                    self.tree.metas(),
                    at,
                    self.tree.get_node(at, child),
                );
                match &mut self.pool_storages[at] {
                    Some(storage) => {
                        if storage.size() < need {
                            let address: u64 = allocate(at, need);
                            proof {
                                lemma_stores_resized(
                                    before.written_as(),
                                    levels,
                                    at as int,
                                    olds[at as int],
                                    storage.bytes(),
                                    need,
                                );
                            }
                            storage.resize(need, address);
                        }
                        proof {
                            lemma_sizes(self.tree, before.written_as(), at as int);
                            lemma_path_stored(
                                before.written_as(),
                                levels,
                                olds,
                                pools,
                                top as nat,
                                c,
                                at as int,
                                child as int,
                                storage.bytes(),
                            );
                        }
                        storage.write(child as usize * apart, bytes.as_slice());
                    },
                    None => {},
                }
                proof {
                    lemma_step_down(levels, pools, top as nat, child as int, c, at as nat);
                }
                level = at;
                next = if level > 0 {
                    self.tree.child(level, child, c)
                } else {
                    None
                };
            }
        }
        proof {
            assert forall|l: int| 0 <= l < top implies (
            #[trigger] self.pool_storages@[l] matches Some(storage) ==> stores(
                self.format,
                levels,
                l,
                pools[l],
                storage.bytes(),
            )) by {
                if l < level {
                    assert(self.pool_storages@[l] == before.storages()[l]);
                    assert(tree::node_at(levels, pools, top as nat, 0, c, l as nat) is None);
                    if let Some(storage) = self.pool_storages@[l] {
                        lemma_stores_kept(
                            self.format,
                            levels,
                            olds,
                            pools,
                            top as nat,
                            c,
                            l,
                            storage.bytes(),
                        );
                    }
                }
            }
        }
    }

    /// Takes another tree in place of this one, in storage too. Storage of a level that is too small
    /// for its nodes is made larger, at the address that `allocate` gives for the level and the new
    /// size.
    pub fn replace<A: FnMut(usize, usize) -> u64>(&mut self, tree: Tree<V>, mut allocate: A)
        requires
            old(self).wf(),
            tree.wf(),
            tree.levels() == old(self).held().levels(),
            storable(old(self).written_as(), tree),
            forall|level: usize, size: usize| #[trigger] call_requires(allocate, (level, size)),
        ensures
            final(self).wf(),
            final(self).held() == tree,
            final(self).kept_like(*old(self)),
            final(self).written_as() == old(self).written_as(),
            final(self).storages().len() == old(self).storages().len(),
            final(self).root_store() is Some <==> old(self).root_store() is Some,
            forall|l: int|
                0 <= l < old(self).storages().len() ==> placed(
                    old(self).storages()[l],
                    #[trigger] final(self).storages()[l],
                    l,
                    allocate,
                ),
    {
        let ghost before = *self;
        let ghost allocator = allocate;
        let ghost levels = tree.levels();
        let ghost pools = tree.pools();
        let top: usize = tree.level_count() - 1;
        self.tree = tree;
        self.store_root();
        let mut level: usize = 0;
        while level < top
            invariant
                allocate == allocator,
                forall|l: usize, size: usize| #[trigger] call_requires(allocate, (l, size)),
                self.tree == tree,
                tree.wf(),
                tree.levels() == levels,
                tree.pools() == pools,
                self.format == before.written_as(),
                storable(before.written_as(), tree),
                top == levels.len() - 1,
                level <= top,
                self.pool_storages@.len() == top,
                before.storages().len() == top,
                forall|l: int|
                    level <= l < top ==> #[trigger] self.pool_storages@[l] == before.storages()[l],
                forall|l: int|
                    0 <= l < level ==> ((#[trigger] self.pool_storages@[l]) matches Some(storage)
                        ==> stores(self.format, levels, l, pools[l], storage.bytes())),
                forall|l: int|
                    0 <= l < top ==> placed(
                        before.storages()[l],
                        #[trigger] self.pool_storages@[l],
                        l,
                        allocate,
                    ),
                self.root.external_storage() is Some <==> before.root_store() is Some,
                self.root.external_storage() matches Some(storage) ==> {
                    &&& storage.bytes().len() == stride(self.format, levels, top as int)
                    &&& holds(storage.bytes(), 0, self.format.bytes_of(pools[top as int][0]))
                    &&& storage.address() == before.root_store()->0.address()
                },
            decreases top - level,
        {
            let layout: NodeLayout = self.format.layout(self.tree.metas(), level);
            let apart: usize = layout.padded();
            let count: usize = self.tree.pool_len(level);
            proof {
                assert(pools[level as int].len() == count);
                lemma_apart(count as int, count as int, apart as int);
                assert(self.pool_storages@[level as int] == before.storages()[level as int]);
            }
            let need: usize = count * apart;
            match &mut self.pool_storages[level] {
                Some(storage) => {
                    if storage.size() < need {
                        let address: u64 = allocate(level, need);
                        storage.resize(need, address);
                        assert(call_ensures(
                            allocate,
                            (level as int as usize, need),
                            storage.address(),
                        ));
                    }
                    store_pool(storage, &self.format, &self.tree, level, apart);
                },
                None => {},
            }
            level += 1;
        }
    }

    /// Writes the root into its storage, where it has one.
    fn store_root(&mut self)
        requires
            old(self).tree.wf(),
            old(self).root.external_storage() matches Some(storage) ==> storage.bytes().len()
                == stride(
                old(self).format,
                old(self).tree.levels(),
                old(self).tree.levels().len() - 1,
            ),
        ensures
            final(self).tree == old(self).tree,
            final(self).format == old(self).format,
            final(self).pool_storages == old(self).pool_storages,
            final(self).root.external_storage() is Some <==> old(self).root.external_storage() is Some,
            final(self).root.external_storage() matches Some(storage) ==> {
                let top = old(self).tree.levels().len() - 1;
                &&& storage.bytes().len() == stride(old(self).format, old(self).tree.levels(), top)
                &&& holds(
                    storage.bytes(),
                    0,
                    old(self).format.bytes_of(old(self).tree.pools()[top][0]),
                )
                &&& storage.address() == old(self).root.external_storage()->0.address()
            },
    {
        let top: usize = self.tree.level_count() - 1;
        proof {
            assert(self.tree.pools()[top as int].len() == 1);
            lemma_fits(self.tree, top as int, 0);
        }
        let layout: NodeLayout = self.format.layout(self.tree.metas(), top);
        let bytes: Vec<u8> = self.format.encode(self.tree.metas(), top, self.tree.get_node(top, 0));
        match &mut self.root {
            RootStorage::External { storage } => {
                proof {
                    encoding::lemma_padded_holds(layout);
                    lemma_holds_written(storage.bytes(), 0, bytes@);
                }
                storage.write(0, bytes.as_slice());
            },
            RootStorage::Inline => {},
        }
    }

    /// The tree.
    pub fn tree(&self) -> (r: &Tree<V>)
        ensures
            *r == self.held(),
    {
        &self.tree
    }

    /// The storage of a level below the root, where it has one.
    pub fn pool_storage(&self, level: usize) -> (r: Option<&S>)
        requires
            level < self.storages().len(),
        ensures
            r is Some <==> self.storages()[level as int] is Some,
            r matches Some(storage) ==> *storage == self.storages()[level as int]->0,
    {
        match &self.pool_storages[level] {
            Some(storage) => Some(storage),
            None => None,
        }
    }

    /// The number of levels below the root.
    pub fn pool_count(&self) -> (r: usize)
        ensures
            r == self.storages().len(),
    {
        self.pool_storages.len()
    }

    /// The storage of the root, where it has one of its own.
    pub fn root_storage(&self) -> (r: Option<&S>)
        ensures
            r is Some <==> self.root_store() is Some,
            r matches Some(storage) ==> *storage == self.root_store()->0,
    {
        self.root.storage()
    }

    /// The storage of the root, where it has one of its own, to be written. Whether it still holds
    /// the root is up to what is written.
    pub fn root_storage_mut(&mut self) -> (r: Option<&mut S>)
        ensures
            r is Some <==> old(self).root_store() is Some,
            r matches Some(storage) ==> *storage == old(self).root_store()->0
                && final(self).root_store() == Some(*final(storage)),
            r is None ==> final(self).root_store() == old(self).root_store(),
            final(self).held() == old(self).held(),
            final(self).written_as() == old(self).written_as(),
            final(self).storages() == old(self).storages(),
    {
        self.root.storage_mut()
    }

    /// The address under which the device sees the root, zero where it is kept with the tree alone.
    pub fn root_device_address(&self) -> (r: u64)
        ensures
            r == (match self.root_store() {
                Some(storage) => storage.address(),
                None => 0,
            }),
    {
        match self.root.storage() {
            Some(storage) => storage.device_address(),
            None => 0,
        }
    }
}

/// Nodes of a level at the same place of storage are the same.
proof fn lemma_told<V: Copy, F: NodeFormat<V>>(
    a: Tree<V>,
    b: Tree<V>,
    format: F,
    level: int,
    n: int,
    bytes: Seq<u8>,
    at: int,
)
    requires
        a.wf(),
        b.wf(),
        a.levels() == b.levels(),
        0 <= level < a.levels().len(),
        0 <= n < a.pools()[level].len(),
        0 <= n < b.pools()[level].len(),
        holds(bytes, at, format.bytes_of(a.pools()[level][n])),
        holds(bytes, at, format.bytes_of(b.pools()[level][n])),
    ensures
        a.pools()[level][n] == b.pools()[level][n],
{
    lemma_fits(a, level, n);
    lemma_fits(b, level, n);
    let x = a.pools()[level][n];
    let y = b.pools()[level][n];
    let first = choose|below: int| #[trigger] tree::node_fits(x, a.levels(), level, below);
    let second = choose|below: int| #[trigger] tree::node_fits(y, b.levels(), level, below);
    let below = if first < second {
        second
    } else {
        first
    };
    assert(tree::node_fits(x, a.levels(), level, below));
    assert(tree::node_fits(y, a.levels(), level, below));
    format.law_bytes_fill_layout(a.levels(), level, x, below);
    format.law_bytes_fill_layout(a.levels(), level, y, below);
    format.law_bytes_tell_node(a.levels(), level, x, y, below);
}

/// The bytes of storage tell what it keeps: where the storages of a level of two trees in the same
/// format have the same bytes, any node that both trees have there is the same, and where those of
/// the roots have, the roots are the same.
pub proof fn law_storage_tells_nodes<V: Copy, S: PoolStorage, F: NodeFormat<V>>(
    a: StoredTree<V, S, F>,
    b: StoredTree<V, S, F>,
    level: int,
    n: int,
)
    requires
        a.wf(),
        b.wf(),
        a.written_as() == b.written_as(),
        a.held().levels() == b.held().levels(),
    ensures
        0 <= level < a.storages().len() && a.storages()[level] is Some && b.storages()[level] is Some
            && a.storages()[level]->0.bytes() == b.storages()[level]->0.bytes() && 0 <= n
            < a.held().pools()[level].len() && n < b.held().pools()[level].len()
            ==> a.held().pools()[level][n] == b.held().pools()[level][n],
        a.root_store() is Some && b.root_store() is Some && a.root_store()->0.bytes()
            == b.root_store()->0.bytes() ==> a.held().pools().last() == b.held().pools().last(),
{
    let format = a.written_as();
    let levels = a.held().levels();
    let top = levels.len() - 1;
    if 0 <= level < a.storages().len() && a.storages()[level] is Some && b.storages()[level] is Some
        && a.storages()[level]->0.bytes() == b.storages()[level]->0.bytes() && 0 <= n
        < a.held().pools()[level].len() && n < b.held().pools()[level].len() {
        let bytes = a.storages()[level]->0.bytes();
        assert(stores(format, levels, level, a.held().pools()[level], bytes));
        assert(stores(format, levels, level, b.held().pools()[level], bytes));
        lemma_told(
            a.held(),
            b.held(),
            format,
            level,
            n,
            bytes,
            n * stride(format, levels, level),
        );
    }
    if a.root_store() is Some && b.root_store() is Some && a.root_store()->0.bytes()
        == b.root_store()->0.bytes() {
        assert(a.held().pools()[top].len() == 1);
        assert(b.held().pools()[top].len() == 1);
        lemma_told(a.held(), b.held(), format, top, 0, a.root_store()->0.bytes(), 0);
        assert(a.held().pools().last() =~= b.held().pools().last());
    }
}

/// The nodes of a level stand in its storage one behind the other, each at a multiple of its size
/// rounded up to its alignment, in the order of the pool, and the root stands at the start of its
/// own storage.
pub proof fn law_nodes_stand_in_storage<V: Copy, S: PoolStorage, F: NodeFormat<V>>(
    stored: StoredTree<V, S, F>,
    level: int,
    n: int,
)
    requires
        stored.wf(),
    ensures
        0 <= level < stored.storages().len() && stored.storages()[level] is Some && 0 <= n
            < stored.held().pools()[level].len() ==> {
            let layout = stored.written_as().layout_of(stored.held().levels(), level);
            let each = (layout.size + layout.align - 1) / (layout.align as int) * layout.align;
            let node = stored.written_as().bytes_of(stored.held().pools()[level][n]);
            let bytes = stored.storages()[level]->0.bytes();
            &&& n * each + node.len() <= bytes.len()
            &&& bytes.subrange(n * each, n * each + node.len()) == node
        },
        stored.root_store() is Some ==> {
            let root = stored.written_as().bytes_of(stored.held().pools().last()[0]);
            let bytes = stored.root_store()->0.bytes();
            &&& root.len() <= bytes.len()
            &&& bytes.subrange(0, root.len() as int) == root
        },
{
    if 0 <= level < stored.storages().len() && stored.storages()[level] is Some && 0 <= n
        < stored.held().pools()[level].len() {
        assert(stores(
            stored.written_as(),
            stored.held().levels(),
            level,
            stored.held().pools()[level],
            stored.storages()[level]->0.bytes(),
        ));
    }
}

/// Storage that a root was given has room for just one root, rounded up to its alignment, and starts
/// with its bytes. The bytes behind are those that were there, or zero, and the device sees it under
/// the given address.
pub proof fn law_root_is_kept<S: PoolStorage>(
    kept: S,
    given: S,
    layout: NodeLayout,
    root: Seq<u8>,
    address: u64,
    i: int,
)
    requires
        holds_root(kept, given, layout, root, address),
        encoding::layout_ok(layout),
        root.len() == layout.size,
    ensures
        ({
            let room = (layout.size + layout.align - 1) / (layout.align as int) * layout.align;
            &&& kept.bytes().len() == room
            &&& 0 <= i < root.len() ==> kept.bytes()[i] == root[i]
            &&& root.len() <= i < room && i < given.bytes().len() ==> kept.bytes()[i]
                == given.bytes()[i]
            &&& root.len() <= i < room && i >= given.bytes().len() ==> kept.bytes()[i] == 0
        }),
        kept.address() == address,
{
    encoding::lemma_padded_holds(layout);
}

} // verus!
