//! How the nodes of a tree look as bytes.

use super::tree;
use super::tree::Level;
use super::tree::Node;
use super::tree::NodeView;
use vstd::prelude::*;

verus! {

/// How many bytes a node of a level takes, and at multiples of what it stands.
#[derive(Clone, Copy, Debug, PartialEq, Eq, Structural)]
pub struct NodeLayout {
    pub size: usize,
    pub align: usize,
}

/// Whether a size can be rounded up to a multiple of the alignment.
pub open spec fn layout_ok(layout: NodeLayout) -> bool {
    0 < layout.align && layout.size + layout.align <= usize::MAX
}

/// The size rounded up to a multiple of the alignment.
pub open spec fn padded_size(layout: NodeLayout) -> int {
    (layout.size + layout.align - 1) / (layout.align as int) * layout.align
}

impl NodeLayout {
    /// The size rounded up to a multiple of the alignment: no smaller, and by less than the
    /// alignment larger.
    pub fn padded(&self) -> (r: usize)
        requires
            layout_ok(*self),
        ensures
            r == padded_size(*self),
            self.size <= r < self.size + self.align,
            r % self.align == 0,
    {
        let over: usize = self.size % self.align;
        proof {
            lemma_padded(self.size as int, self.align as int);
        }
        if over == 0 {
            self.size
        } else {
            self.size + (self.align - over)
        }
    }
}

proof fn lemma_padded(size: int, align: int)
    requires
        0 <= size,
        0 < align,
    ensures
        size % align == 0 ==> (size + align - 1) / align * align == size,
        size % align != 0 ==> (size + align - 1) / align * align == size + (align - size % align),
        (size + align - 1) / align * align % align == 0,
{
    let q = size / align;
    let over = size % align;
    vstd::arithmetic::div_mod::lemma_fundamental_div_mod(size, align);
    vstd::arithmetic::mul::lemma_mul_is_commutative(align, q);
    if over == 0 {
        vstd::arithmetic::div_mod::lemma_fundamental_div_mod_converse(
            size + align - 1,
            align,
            q,
            align - 1,
        );
        vstd::arithmetic::div_mod::lemma_mod_multiples_basic(q, align);
    } else {
        assert((q + 1) * align == q * align + align) by (nonlinear_arith);
        vstd::arithmetic::div_mod::lemma_fundamental_div_mod_converse(
            size + align - 1,
            align,
            q + 1,
            over - 1,
        );
        vstd::arithmetic::div_mod::lemma_mod_multiples_basic(q + 1, align);
    }
}

/// A size is no larger than the size rounded up.
pub proof fn lemma_padded_holds(layout: NodeLayout)
    requires
        layout_ok(layout),
    ensures
        layout.size <= padded_size(layout) < layout.size + layout.align,
{
    lemma_padded(layout.size as int, layout.align as int);
}

/// How nodes are written as bytes: all nodes of a level take as many, and the bytes of a node tell
/// it from all others of its level.
pub trait NodeFormat<V>: Sized {
    /// The layout of the nodes of a level.
    spec fn layout_of(&self, levels: Seq<Level>, level: int) -> NodeLayout;

    /// The bytes of a node.
    spec fn bytes_of(&self, node: NodeView<V>) -> Seq<u8>;

    /// The layout of the nodes of a level.
    fn layout(&self, levels: &Vec<Level>, level: usize) -> (r: NodeLayout)
        requires
            tree::levels_ok(levels@),
            level < levels@.len(),
        ensures
            r == self.layout_of(levels@, level as int),
            layout_ok(r),
    ;

    /// The bytes of a node of a level.
    fn encode(&self, levels: &Vec<Level>, level: usize, node: &Node<V>) -> (r: Vec<u8>)
        requires
            tree::levels_ok(levels@),
            level < levels@.len(),
            exists|below: int| #[trigger] tree::node_fits(node@, levels@, level as int, below),
        ensures
            r@ == self.bytes_of(node@),
            r@.len() == self.layout_of(levels@, level as int).size,
    ;

    /// The nodes of a level all take as many bytes as its layout says.
    proof fn law_bytes_fill_layout(
        &self,
        levels: Seq<Level>,
        level: int,
        node: NodeView<V>,
        below: int,
    )
        requires
            tree::levels_ok(levels),
            0 <= level < levels.len(),
            tree::node_fits(node, levels, level, below),
        ensures
            self.bytes_of(node).len() == self.layout_of(levels, level).size,
    ;

    /// Nodes of a level with the same bytes are the same.
    proof fn law_bytes_tell_node(
        &self,
        levels: Seq<Level>,
        level: int,
        a: NodeView<V>,
        b: NodeView<V>,
        below: int,
    )
        requires
            tree::levels_ok(levels),
            0 <= level < levels.len(),
            tree::node_fits(a, levels, level, below),
            tree::node_fits(b, levels, level, below),
            self.bytes_of(a) == self.bytes_of(b),
        ensures
            a == b,
    ;
}

/// Two to the power of a number.
pub open spec fn weight(k: nat) -> int
    decreases k,
{
    if k == 0 {
        1
    } else {
        2 * weight((k - 1) as nat)
    }
}

/// The sum of the weights of the first `n` bits from one on, those past the end being unset.
pub open spec fn packed_bits(taken: Seq<bool>, at: int, n: nat) -> int
    decreases n,
{
    if n == 0 {
        0
    } else {
        packed_bits(taken, at, (n - 1) as nat) + (if at + n - 1 < taken.len() && taken[at + n - 1] {
            weight((n - 1) as nat)
        } else {
            0
        })
    }
}

/// The number of bytes that a bit for each of some cells takes, in whole words of 32 bits.
pub open spec fn mask_size(n: nat) -> nat {
    ((n + 31) / 32 * 4) as nat
}

/// A bit for each cell, the first in the lowest bit of the first byte.
pub open spec fn mask_bytes(taken: Seq<bool>) -> Seq<u8> {
    Seq::new(mask_size(taken.len()), |i: int| packed_bits(taken, 8 * i, 8) as u8)
}

/// Which cells hold something.
pub open spec fn taken<T>(held: Seq<Option<T>>) -> Seq<bool> {
    Seq::new(held.len(), |i: int| held[i] is Some)
}

/// Byte `k` of a number, the lowest first.
pub open spec fn byte_of(n: u32, k: int) -> u8 {
    if k == 0 {
        (n % 256) as u8
    } else if k == 1 {
        (n / 256 % 256) as u8
    } else if k == 2 {
        (n / 65536 % 256) as u8
    } else {
        (n / 16777216) as u8
    }
}

/// The places of children, four bytes each, the lowest first, zero where there is none.
pub open spec fn pointer_bytes(children: Seq<Option<u32>>) -> Seq<u8> {
    Seq::new(
        4 * children.len(),
        |i: int|
            match children[i / 4] {
                Some(child) => byte_of(child, i % 4),
                None => 0,
            },
    )
}

/// The values of voxels, a byte each, zero where there is none.
pub open spec fn value_bytes(values: Seq<Option<u8>>) -> Seq<u8> {
    Seq::new(
        values.len(),
        |i: int|
            match values[i] {
                Some(value) => value,
                None => 0,
            },
    )
}

/// Nodes as a bit for each cell that holds something, and behind these the places of the children or
/// the values.
#[derive(Clone, Copy, Debug, PartialEq, Eq, Structural)]
pub struct PackedNodes;

proof fn lemma_weight(k: nat)
    ensures
        1 <= weight(k),
        weight(8) == 256,
    decreases k,
{
    if k > 0 {
        lemma_weight((k - 1) as nat);
    }
    reveal_with_fuel(weight, 9);
}

proof fn lemma_packed_bound(taken: Seq<bool>, at: int, n: nat)
    ensures
        0 <= packed_bits(taken, at, n) < weight(n),
    decreases n,
{
    lemma_weight(n);
    if n > 0 {
        lemma_packed_bound(taken, at, (n - 1) as nat);
    }
}

proof fn lemma_packed_tells(a: Seq<bool>, b: Seq<bool>, at: int, n: nat, k: int)
    requires
        a.len() == b.len(),
        packed_bits(a, at, n) == packed_bits(b, at, n),
        0 <= at,
        0 <= k < n,
        at + k < a.len(),
    ensures
        a[at + k] == b[at + k],
    decreases n,
{
    let m = (n - 1) as nat;
    lemma_packed_bound(a, at, m);
    lemma_packed_bound(b, at, m);
    if k < m {
        lemma_packed_tells(a, b, at, m, k);
    }
}

proof fn lemma_mask_tells(a: Seq<bool>, b: Seq<bool>)
    requires
        a.len() == b.len(),
        mask_bytes(a) == mask_bytes(b),
    ensures
        a == b,
{
    assert forall|i: int| 0 <= i < a.len() implies a[i] == b[i] by {
        let at = i / 8;
        assert(at < mask_size(a.len()));
        assert(mask_bytes(a)[at] == packed_bits(a, 8 * at, 8) as u8);
        assert(mask_bytes(b)[at] == packed_bits(b, 8 * at, 8) as u8);
        lemma_packed_bound(a, 8 * at, 8);
        lemma_packed_bound(b, 8 * at, 8);
        lemma_weight(8);
        lemma_packed_tells(a, b, 8 * at, 8, i % 8);
    }
    assert(a =~= b);
}

/// A bit for each cell.
fn mask(taken: &Vec<bool>) -> (r: Vec<u8>)
    requires
        taken@.len() <= 16777216,
    ensures
        r@ == mask_bytes(taken@),
{
    let count: usize = (taken.len() + 31) / 32 * 4;
    let mut bytes: Vec<u8> = Vec::new();
    while bytes.len() < count
        invariant
            taken@.len() <= 16777216,
            count == mask_size(taken@.len()),
            bytes@.len() <= count,
            forall|i: int|
                0 <= i < bytes@.len() ==> #[trigger] bytes@[i] == packed_bits(
                    taken@,
                    8 * i,
                    8,
                ) as u8,
        decreases count - bytes@.len(),
    {
        let at: usize = bytes.len() * 8;
        let mut byte: u32 = 0;
        let mut step: u32 = 1;
        let mut k: usize = 0;
        while k < 8
            invariant
                k <= 8,
                at <= 20000000,
                step == weight(k as nat),
                step <= 256,
                k < 8 ==> step <= 128,
                byte < step,
                byte == packed_bits(taken@, at as int, k as nat),
            decreases 8 - k,
        {
            if at + k < taken.len() && taken[at + k] {
                byte += step;
            }
            k += 1;
            proof {
                lemma_weight(k as nat);
                reveal_with_fuel(weight, 9);
            }
            step = step * 2;
        }
        proof {
            lemma_weight(8);
        }
        bytes.push(byte as u8);
    }
    assert(bytes@ =~= mask_bytes(taken@));
    bytes
}

fn which_taken<T>(held: &Vec<Option<T>>) -> (r: Vec<bool>)
    ensures
        r@ == taken(held@),
{
    let mut cells: Vec<bool> = Vec::new();
    let mut i: usize = 0;
    while i < held.len()
        invariant
            i <= held@.len(),
            cells@.len() == i,
            forall|k: int| 0 <= k < i ==> #[trigger] cells@[k] == held@[k] is Some,
        decreases held@.len() - i,
    {
        cells.push(held[i].is_some());
        i += 1;
    }
    assert(cells@ =~= taken(held@));
    cells
}

impl NodeFormat<u8> for PackedNodes {
    open spec fn layout_of(&self, levels: Seq<Level>, level: int) -> NodeLayout {
        let cells = tree::cells(levels[level]);
        let each = if level == 0 {
            1int
        } else {
            4
        };
        NodeLayout { size: (mask_size(cells as nat) + each * cells) as usize, align: 4 }
    }

    open spec fn bytes_of(&self, node: NodeView<u8>) -> Seq<u8> {
        match node {
            NodeView::Internal { children } => mask_bytes(taken(children)) + pointer_bytes(
                children,
            ),
            NodeView::Leaf { values } => mask_bytes(taken(values)) + value_bytes(values),
        }
    }

    fn layout(&self, levels: &Vec<Level>, level: usize) -> (r: NodeLayout) {
        let fan: usize = levels[level].fan as usize;
        proof {
            tree::lemma_cells_bound(levels@, level as int);
        }
        let cells: usize = fan * fan * fan;
        let each: usize = if level == 0 {
            1
        } else {
            4
        };
        NodeLayout { size: (cells + 31) / 32 * 4 + each * cells, align: 4 }
    }

    fn encode(&self, levels: &Vec<Level>, level: usize, node: &Node<u8>) -> (r: Vec<u8>) {
        proof {
            tree::lemma_cells_bound(levels@, level as int);
        }
        match node {
            Node::Internal { children } => {
                let mut bytes: Vec<u8> = mask(&which_taken(children));
                let ghost head = bytes@;
                let mut i: usize = 0;
                while i < children.len()
                    invariant
                        i <= children@.len(),
                        children@.len() <= 16777216,
                        head == mask_bytes(taken(children@)),
                        bytes@ == head + pointer_bytes(children@.take(i as int)),
                    decreases children@.len() - i,
                {
                    let child: u32 = match children[i] {
                        Some(child) => child,
                        None => 0,
                    };
                    bytes.push((child % 256) as u8);
                    bytes.push((child / 256 % 256) as u8);
                    bytes.push((child / 65536 % 256) as u8);
                    bytes.push((child / 16777216) as u8);
                    proof {
                        let before = pointer_bytes(children@.take(i as int));
                        let after = pointer_bytes(children@.take(i + 1));
                        assert forall|k: int| 0 <= k < after.len() implies after[k] == bytes@[head.len()
                            + k] by {
                            if k < before.len() {
                                assert(after[k] == before[k]);
                            } else {
                                assert(k / 4 == i);
                            }
                        }
                        assert(bytes@ =~= head + after);
                    }
                    i += 1;
                }
                assert(children@.take(i as int) =~= children@);
                bytes
            },
            Node::Leaf { values } => {
                let mut bytes: Vec<u8> = mask(&which_taken(values));
                let ghost head = bytes@;
                let mut i: usize = 0;
                while i < values.len()
                    invariant
                        i <= values@.len(),
                        head == mask_bytes(taken(values@)),
                        bytes@ == head + value_bytes(values@.take(i as int)),
                    decreases values@.len() - i,
                {
                    bytes.push(
                        match values[i] {
                            Some(value) => value,
                            None => 0,
                        },
                    );
                    i += 1;
                    assert(bytes@ =~= head + value_bytes(values@.take(i as int)));
                }
                assert(values@.take(i as int) =~= values@);
                bytes
            },
        }
    }

    proof fn law_bytes_fill_layout(
        &self,
        levels: Seq<Level>,
        level: int,
        node: NodeView<u8>,
        below: int,
    ) {
        tree::lemma_cells_bound(levels, level);
    }

    proof fn law_bytes_tell_node(
        &self,
        levels: Seq<Level>,
        level: int,
        a: NodeView<u8>,
        b: NodeView<u8>,
        below: int,
    ) {
        match (a, b) {
            (NodeView::Internal { children: x }, NodeView::Internal { children: y }) => {
                lemma_pointers_tell(x, y);
            },
            (NodeView::Leaf { values: x }, NodeView::Leaf { values: y }) => {
                lemma_values_tell(x, y);
            },
            _ => {},
        }
    }
}

proof fn lemma_number_told(a: u32, b: u32)
    requires
        byte_of(a, 0) == byte_of(b, 0),
        byte_of(a, 1) == byte_of(b, 1),
        byte_of(a, 2) == byte_of(b, 2),
        byte_of(a, 3) == byte_of(b, 3),
    ensures
        a == b,
{
}

proof fn lemma_pointers_tell(x: Seq<Option<u32>>, y: Seq<Option<u32>>)
    requires
        x.len() == y.len(),
        mask_bytes(taken(x)) + pointer_bytes(x) == mask_bytes(taken(y)) + pointer_bytes(y),
    ensures
        x == y,
{
    lemma_parts(mask_bytes(taken(x)), pointer_bytes(x), mask_bytes(taken(y)), pointer_bytes(y));
    lemma_mask_tells(taken(x), taken(y));
    assert forall|i: int| 0 <= i < x.len() implies x[i] == y[i] by {
        assert(taken(x)[i] == taken(y)[i]);
        if x[i] is Some {
            assert forall|k: int| 0 <= k < 4 implies #[trigger] byte_of(x[i]->0, k) == byte_of(
                y[i]->0,
                k,
            ) by {
                assert((4 * i + k) / 4 == i && (4 * i + k) % 4 == k);
                assert(pointer_bytes(x)[4 * i + k] == pointer_bytes(y)[4 * i + k]);
            }
            lemma_number_told(x[i]->0, y[i]->0);
        }
    }
    assert(x =~= y);
}

proof fn lemma_values_tell(x: Seq<Option<u8>>, y: Seq<Option<u8>>)
    requires
        x.len() == y.len(),
        mask_bytes(taken(x)) + value_bytes(x) == mask_bytes(taken(y)) + value_bytes(y),
    ensures
        x == y,
{
    lemma_parts(mask_bytes(taken(x)), value_bytes(x), mask_bytes(taken(y)), value_bytes(y));
    lemma_mask_tells(taken(x), taken(y));
    assert forall|i: int| 0 <= i < x.len() implies x[i] == y[i] by {
        assert(taken(x)[i] == taken(y)[i]);
        assert(value_bytes(x)[i] == value_bytes(y)[i]);
    }
    assert(x =~= y);
}

proof fn lemma_parts(a: Seq<u8>, b: Seq<u8>, c: Seq<u8>, d: Seq<u8>)
    requires
        a + b == c + d,
        a.len() == c.len(),
    ensures
        a == c,
        b == d,
{
    assert((a + b).take(a.len() as int) =~= a);
    assert((c + d).take(a.len() as int) =~= c);
    assert((a + b).skip(a.len() as int) =~= b);
    assert((c + d).skip(a.len() as int) =~= d);
}

/// Bit `i` of the mask of a node, counted from the lowest bit of the first byte, is set just where
/// cell `i` holds something. The mask takes whole words of 32 bits, whose other bits are not set.
pub proof fn law_mask_bits(taken: Seq<bool>, i: int)
    requires
        0 <= i < 8 * mask_bytes(taken).len(),
    ensures
        ({
            let byte = mask_bytes(taken)[i / 8];
            let bit = if i % 8 == 0 {
                byte % 2
            } else if i % 8 == 1 {
                byte / 2 % 2
            } else if i % 8 == 2 {
                byte / 4 % 2
            } else if i % 8 == 3 {
                byte / 8 % 2
            } else if i % 8 == 4 {
                byte / 16 % 2
            } else if i % 8 == 5 {
                byte / 32 % 2
            } else if i % 8 == 6 {
                byte / 64 % 2
            } else {
                byte / 128 % 2
            };
            bit == 1 <==> i < taken.len() && taken[i]
        }),
        mask_bytes(taken).len() % 4 == 0,
        taken.len() <= 8 * mask_bytes(taken).len() < taken.len() + 32,
{
    let at = 8 * (i / 8);
    lemma_packed_bound(taken, at, 8);
    lemma_weight(8);
    reveal_with_fuel(packed_bits, 9);
    reveal_with_fuel(weight, 9);
    assert(mask_bytes(taken)[i / 8] == packed_bits(taken, at, 8));
    assert(i == at + i % 8);
    let one = |k: int| at + k < taken.len() && taken[at + k];
    assert(one(i % 8) <==> i < taken.len() && taken[i]);
    assert(packed_bits(taken, at, 8) == (if one(0) { 1int } else { 0 }) + (if one(1) { 2int } else { 0 })
        + (if one(2) { 4int } else { 0 }) + (if one(3) { 8int } else { 0 }) + (if one(4) { 16int } else {
        0
    }) + (if one(5) { 32int } else { 0 }) + (if one(6) { 64int } else { 0 }) + (if one(7) { 128int } else {
        0
    }));
}

/// The place of a child is written in four bytes, the lowest first, which are zero where there is
/// none, and the value of a voxel in one.
pub proof fn law_child_and_value_bytes(
    children: Seq<Option<u32>>,
    values: Seq<Option<u8>>,
    i: int,
)
    ensures
        0 <= i < children.len() ==> {
            let bytes = pointer_bytes(children);
            let number = bytes[4 * i] + bytes[4 * i + 1] * 256 + bytes[4 * i + 2] * 65536 + bytes[4 * i
                + 3] * 16777216;
            &&& bytes.len() == 4 * children.len()
            &&& children[i] is Some ==> number == children[i]->0
            &&& children[i] is None ==> number == 0
        },
        0 <= i < values.len() ==> {
            &&& value_bytes(values).len() == values.len()
            &&& values[i] is Some ==> value_bytes(values)[i] == values[i]->0
            &&& values[i] is None ==> value_bytes(values)[i] == 0
        },
{
    if 0 <= i < children.len() {
        assert((4 * i) / 4 == i && (4 * i + 1) / 4 == i && (4 * i + 2) / 4 == i && (4 * i + 3) / 4 == i);
        if let Some(child) = children[i] {
            assert(child / 65536 == child / 256 / 256);
            assert(child / 16777216 == child / 65536 / 256);
        }
    }
}

/// Just those cells are taken that hold something.
pub proof fn law_taken_cells<T>(held: Seq<Option<T>>, i: int)
    requires
        0 <= i < held.len(),
    ensures
        taken(held).len() == held.len(),
        taken(held)[i] <==> held[i] is Some,
{
}

/// A packed node is its mask and then what its cells hold, a byte each in a leaf and four in any
/// other node.
pub proof fn law_packed_node(levels: Seq<Level>, level: int, node: NodeView<u8>, below: int)
    requires
        tree::levels_ok(levels),
        0 <= level < levels.len(),
        tree::node_fits(node, levels, level, below),
    ensures
        ({
            let bytes = PackedNodes.bytes_of(node);
            let layout = PackedNodes.layout_of(levels, level);
            let n = levels[level].fan as int;
            let cells = n * n * n;
            let head = (cells + 31) / 32 * 4;
            &&& layout.align == 4
            &&& level == 0 ==> layout.size == head + cells
            &&& level > 0 ==> layout.size == head + 4 * cells
            &&& bytes.len() == layout.size
            &&& node matches NodeView::Leaf { values } ==> bytes.take(head) == mask_bytes(
                taken(values),
            ) && bytes.skip(head) == value_bytes(values)
            &&& node matches NodeView::Internal { children } ==> bytes.take(head) == mask_bytes(
                taken(children),
            ) && bytes.skip(head) == pointer_bytes(children)
        }),
{
    tree::lemma_cells_bound(levels, level);
    let n = levels[level].fan as int;
    let head = (n * n * n + 31) / 32 * 4;
    match node {
        NodeView::Leaf { values } => {
            assert(PackedNodes.bytes_of(node).take(head) =~= mask_bytes(taken(values)));
            assert(PackedNodes.bytes_of(node).skip(head) =~= value_bytes(values));
        },
        NodeView::Internal { children } => {
            assert(PackedNodes.bytes_of(node).take(head) =~= mask_bytes(taken(children)));
            assert(PackedNodes.bytes_of(node).skip(head) =~= pointer_bytes(children));
        },
    }
}

} // verus!
