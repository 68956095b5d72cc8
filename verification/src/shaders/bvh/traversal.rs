//! The order in which the nodes and primitives of a hierarchy are visited.

use super::cwbvh;
use super::cwbvh::CwBvhNode;
use super::cwbvh::TRAVERSAL_STACK_SIZE;
use super::faststack;
use super::faststack::FastStack;
use super::faststack::StackStack;
use crate::bits;
use crate::math::UVec2;
use vstd::prelude::*;

verus! {

/// The group that holds the root alone.
pub open spec fn root_group() -> UVec2 {
    UVec2 { x: 0, y: 0x80000000 }
}

/// The group that holds nothing.
pub open spec fn no_group() -> UVec2 {
    UVec2 { x: 0, y: 0 }
}

/// The bits of a group that stand for children that are still to be visited.
pub const CHILD_HITS: u32 = 0xff000000;

/// A Compressed Wide BVH8
pub struct CwBvh {
    pub nodes: Vec<CwBvhNode>,
}

/// Holds traversal state to allow for dynamic traversal (yield on hit)
///
/// The highest 8 bits of a group's second number are the children that are still to be visited,
/// its lowest 8 bits are the slots with internal nodes, and its first number is the index of the
/// first child.
pub struct Traversal {
    pub stack: StackStack<UVec2, TRAVERSAL_STACK_SIZE>,
    pub current_group: UVec2,
    pub primitive_group: UVec2,
    pub oct_inv4: u32,
    pub primitive_id: u32,
    pub hitmask: u32,
}

/// What a traversal comes to next.
#[derive(Clone, Copy, Debug, PartialEq, Eq, Structural)]
pub enum TraversalStep {
    /// A primitive that is to be tested.
    Primitive(u32),
    /// A node whose children are to be tested.
    Node(u32),
    /// The end.
    Done,
}

/// Whether children of a group are still to be visited.
pub open spec fn pending(group: UVec2) -> bool {
    exists|j: u32| 24 <= j < 32 && #[trigger] bits::bit32(group.y, j)
}

/// The node that bit `j` of a group stands for.
pub open spec fn node_of(group: UVec2, oct_inv4: u32, j: u32) -> int {
    group.x + bits::ones_below(group.y, slot_of(oct_inv4, j) as nat)
}

/// The slot that bit `j` of a group stands for.
pub open spec fn slot_of(oct_inv4: u32, j: u32) -> u32 {
    ((j - 24) as u32) ^ (oct_inv4 & 0xff)
}

/// Whether each child of a group that is still to be visited is one of `n` nodes, and no two are the
/// same.
pub open spec fn group_ok(group: UVec2, oct_inv4: u32, n: nat) -> bool {
    &&& forall|j: u32|
        24 <= j < 32 && #[trigger] bits::bit32(group.y, j) ==> node_of(group, oct_inv4, j) < n
    &&& forall|j: u32, k: u32|
        24 <= j < 32 && 24 <= k < 32 && j != k && #[trigger] bits::bit32(group.y, j)
            && #[trigger] bits::bit32(group.y, k) ==> node_of(group, oct_inv4, j) != node_of(
            group,
            oct_inv4,
            k,
        )
}

/// Whether the meta data of a child is that of a leaf, or of an internal node in its slot.
pub open spec fn child_ok(node: CwBvhNode, c: int) -> bool {
    ||| cwbvh::contribution(node.child_meta@[c], 0) < 0x1000000 && !cwbvh::is_inner(
        node.child_meta@[c],
    )
    ||| node.child_meta@[c] == 56 + c && bits::bit32(node.imask as u32, c as u32)
}

/// Whether the meta data of a node is what its children ask for: the bits of a leaf are those of
/// primitives, an internal node is marked as such, and the children are among `n` nodes.
pub open spec fn node_ok(node: CwBvhNode, n: nat) -> bool {
    &&& forall|c: int| #![trigger node.child_meta@[c]] 0 <= c < 8 ==> child_ok(node, c)
    &&& node.child_base_idx + bits::ones_below(node.imask as u32, 8) <= n
    &&& node.primitive_base_idx + 24 <= u32::MAX
}

impl CwBvh {
    /// Whether the nodes can be counted and each is as its children ask for.
    pub open spec fn wf(&self) -> bool {
        &&& self.nodes@.len() <= u32::MAX
        &&& forall|i: int|
            0 <= i < self.nodes@.len() ==> node_ok(#[trigger] self.nodes@[i], self.nodes@.len())
    }

    /// Whether the nodes can be counted and each is as its children ask for.
    pub fn is_sound(&self) -> (r: bool)
        ensures
            r == self.wf(),
    {
        let n: usize = self.nodes.len();
        if n as u64 > u32::MAX as u64 {
            return false;
        }
        let mut i: usize = 0;
        while i < n
            invariant
                i <= n,
                n == self.nodes@.len(),
                n <= u32::MAX,
                forall|k: int| 0 <= k < i ==> node_ok(#[trigger] self.nodes@[k], n as nat),
            decreases n - i,
        {
            if !node_sound(&self.nodes[i], n as u32) {
                return false;
            }
            i += 1;
        }
        true
    }
}

/// Whether the meta data of a node is what its children ask for, these being among `n` nodes.
fn node_sound(node: &CwBvhNode, n: u32) -> (r: bool)
    ensures
        r == node_ok(*node, n as nat),
{
    let children: u32 = cwbvh::ones_under(node.imask as u32, 8);
    if node.child_base_idx as u64 + children as u64 > n as u64 {
        return false;
    }
    if node.primitive_base_idx > u32::MAX - 24 {
        return false;
    }
    let mut c: usize = 0;
    while c < 8
        invariant
            c <= 8,
            forall|k: int| 0 <= k < c ==> child_ok(*node, k),
        decreases 8 - c,
    {
        let meta: u8 = node.child_meta[c];
        let inner: bool = meta % 32 >= 24;
        let below: bool = (meta as u32 / 32) << (meta as u32 % 32) < 0x1000000;
        let marked: bool = meta as usize == 56 + c && (node.imask as u32 >> c as u32) & 1 == 1;
        if !(below && !inner) && !marked {
            assert(!child_ok(*node, c as int));
            return false;
        }
        c += 1;
    }
    assert forall|k: int| 0 <= k < 8 implies child_ok(*node, k) by {}
    true
}

impl Traversal {
    /// Whether a traversal is one of `n` nodes: every child that is still to be visited is one of
    /// them, and so are those of all groups on the stack, which have some.
    pub open spec fn inv(&self, n: nat) -> bool {
        &&& self.stack.usable()
        &&& self.oct_inv4 & 0xff < 8
        &&& group_ok(self.current_group, self.oct_inv4, n)
        &&& forall|i: int|
            0 <= i < self.stack.depth() ==> {
                &&& group_ok(#[trigger] self.stack.slots()[i], self.oct_inv4, n)
                &&& pending(self.stack.slots()[i])
            }
        &&& self.primitive_group.y < 0x1000000
        &&& self.primitive_group.y != 0 ==> self.primitive_group.x + 24 <= u32::MAX
    }

    /// Reinitialize traversal state with the octant of a new traversal direction.
    #[inline(always)]
    pub fn reinit(&mut self, against: [bool; 3])
        requires
            old(self).stack.usable(),
        ensures
            final(self).stack.usable(),
            final(self).stack.depth() == 0,
            final(self).current_group == root_group(),
            final(self).primitive_group == no_group(),
            final(self).oct_inv4 == cwbvh::octant(against) * 0x01010101,
            final(self).primitive_id == 0,
            final(self).hitmask == 0,
    {
        self.stack.clear();
        self.current_group = UVec2 { x: 0, y: 0x80000000 };
        self.primitive_group = UVec2 { x: 0, y: 0 };
        self.oct_inv4 = cwbvh::octant_inv4(against);
        self.primitive_id = 0;
        self.hitmask = 0;
    }
}

impl Default for Traversal {
    fn default() -> (r: Traversal)
        ensures
            r.stack.usable(),
            r.stack.depth() == 0,
            r.current_group == root_group(),
            r.primitive_group == no_group(),
            r.oct_inv4 == 0,
            r.primitive_id == 0,
            r.hitmask == 0,
    {
        Traversal {
            stack: StackStack::default(),
            current_group: UVec2 { x: 0, y: 0x80000000 },
            primitive_group: UVec2 { x: 0, y: 0 },
            oct_inv4: 0,
            primitive_id: 0,
            hitmask: 0,
        }
    }
}

pub proof fn lemma_group_bits(y: u32, imask: u8, k: u32)
    by (bit_vector)
    requires
        k < 32,
    ensures
        ((y & 0xff000000) >> k) & 1 == 1 <==> k >= 24 && (y >> k) & 1 == 1,
        ((y & 0x00ffffff) >> k) & 1 == 1 <==> k < 24 && (y >> k) & 1 == 1,
        (((y & 0xff000000) | (imask as u32)) >> k) & 1 == 1 <==> (k >= 24 && (y >> k) & 1 == 1) || (k
            < 8 && ((imask as u32) >> k) & 1 == 1),
        ((imask as u32) >> k) & 1 == 1 ==> k < 8,
        y < 0x1000000 && k >= 24 ==> (y >> k) & 1 == 0,
        (0x80000000u32 >> k) & 1 == 1 <==> k == 31,
        y & 0x00ffffff < 0x1000000,
{
}

pub proof fn lemma_slots(c: u32, oct: u32, k: u32)
    by (bit_vector)
    requires
        c < 8,
        oct < 8,
        k < 32,
    ensures
        c ^ oct < 8,
        (c ^ oct) ^ oct == c,
        ((1u32 << (((((56 + c) as u8) ^ (oct as u8)) % 32) as u32)) >> k) & 1 == 1 <==> k == 24 + (c
            ^ oct),
{
}

proof fn lemma_pending_mask(group: UVec2)
    ensures
        group.y & CHILD_HITS != 0 <==> pending(group),
{
    if group.y & CHILD_HITS != 0 {
        bits::lemma_bit32_highest(group.y & CHILD_HITS);
        let t = (31 - (group.y & CHILD_HITS).leading_zeros()) as u32;
        lemma_group_bits(group.y, 0, t);
        assert(bits::bit32(group.y, t));
    }
    if pending(group) {
        let j = choose|j: u32| 24 <= j < 32 && #[trigger] bits::bit32(group.y, j);
        lemma_group_bits(group.y, 0, j);
        bits::lemma_bit32_zero(j);
    }
}

/// Taking a child out of a group leaves the others as they were.
pub proof fn lemma_group_rest(group: UVec2, rest: UVec2, oct_inv4: u32, j: u32, n: nat)
    requires
        24 <= j < 32,
        oct_inv4 & 0xff < 8,
        rest.x == group.x,
        rest.y == group.y & !(1u32 << j),
    ensures
        forall|k: u32|
            k < 32 ==> (#[trigger] bits::bit32(rest.y, k) <==> k != j && bits::bit32(group.y, k)),
        group_ok(group, oct_inv4, n) ==> group_ok(rest, oct_inv4, n),
{
    assert forall|k: u32| k < 32 implies (#[trigger] bits::bit32(rest.y, k) <==> k != j
        && bits::bit32(group.y, k)) by {
        bits::lemma_bit32_and_not(group.y, j, k);
    }
    if group_ok(group, oct_inv4, n) {
        assert forall|k: u32|
            24 <= k < 32 && #[trigger] bits::bit32(rest.y, k) implies node_of(rest, oct_inv4, k)
            < n by {
            lemma_rest_node(group, rest, oct_inv4, k);
            assert(bits::bit32(group.y, k));
        }
        assert forall|k: u32, m: u32|
            24 <= k < 32 && 24 <= m < 32 && k != m && #[trigger] bits::bit32(rest.y, k)
                && #[trigger] bits::bit32(rest.y, m) implies node_of(rest, oct_inv4, k) != node_of(
            rest,
            oct_inv4,
            m,
        ) by {
            lemma_rest_node(group, rest, oct_inv4, k);
            lemma_rest_node(group, rest, oct_inv4, m);
            assert(bits::bit32(group.y, k));
            assert(bits::bit32(group.y, m));
        }
    }
}

/// The bits of a group stand for the same nodes once a child has been taken out.
pub proof fn lemma_rest_node(group: UVec2, rest: UVec2, oct_inv4: u32, k: u32)
    requires
        24 <= k < 32,
        oct_inv4 & 0xff < 8,
        rest.x == group.x,
        forall|b: u32| b < 24 ==> (#[trigger] bits::bit32(rest.y, b) <==> bits::bit32(group.y, b)),
    ensures
        node_of(rest, oct_inv4, k) == node_of(group, oct_inv4, k),
{
    lemma_slots((k - 24) as u32, oct_inv4 & 0xff, 0);
    lemma_ones_same(group.y, rest.y, slot_of(oct_inv4, k) as nat);
}

/// Words with the same lowest bits have as many of them set.
pub proof fn lemma_ones_same(a: u32, b: u32, n: nat)
    requires
        n <= 24,
        forall|k: u32| k < n ==> (#[trigger] bits::bit32(a, k) <==> bits::bit32(b, k)),
    ensures
        bits::ones_below(a, n) == bits::ones_below(b, n),
    decreases n,
{
    if n > 0 {
        lemma_ones_same(a, b, (n - 1) as nat);
        assert(bits::bit32(a, (n - 1) as u32) <==> bits::bit32(b, (n - 1) as u32));
    }
}

pub proof fn lemma_ones_monotone(w: u32, a: nat, b: nat)
    requires
        a < b,
    ensures
        bits::ones_below(w, a) + (if bits::bit32(w, a as u32) { 1nat } else { 0 }) <= bits::ones_below(w, b),
    decreases b,
{
    if a + 1 < b {
        lemma_ones_monotone(w, a, (b - 1) as nat);
    }
}

/// The group that a traversal takes the next child from: the current one, or the one on top of the
/// stack.
pub open spec fn source_group(state: Traversal) -> Option<UVec2> {
    if pending(state.current_group) {
        Some(state.current_group)
    } else if state.stack.depth() > 0 {
        Some(state.stack.slots()[state.stack.depth() - 1])
    } else {
        None
    }
}

/// The highest set bit of a word.
pub open spec fn is_highest(w: u32, j: u32) -> bool {
    &&& j < 32
    &&& bits::bit32(w, j)
    &&& forall|k: u32| j < k < 32 ==> !#[trigger] bits::bit32(w, k)
}

impl CwBvh {
    /// Starts a traversal in the order that suits a direction.
    #[inline(always)]
    pub fn new_traversal(&self, against: [bool; 3]) -> (r: Traversal)
        ensures
            r.inv(self.nodes@.len()),
            r.stack.depth() == 0,
            r.stack.slots().len() == 32,
            r.current_group == (if self.nodes@.len() == 0 {
                no_group()
            } else {
                root_group()
            }),
            r.primitive_group == no_group(),
            r.oct_inv4 == cwbvh::octant(against) * 0x01010101,
            r.primitive_id == 0,
            r.hitmask == 0,
    {
        let stack: StackStack<UVec2, TRAVERSAL_STACK_SIZE> = StackStack::default();
        let current_group: UVec2 = if self.nodes.len() == 0 {
            UVec2 { x: 0, y: 0 }
        } else {
            UVec2 { x: 0, y: 0x80000000 }
        };
        let oct_inv4: u32 = cwbvh::octant_inv4(against);
        proof {
            lemma_octant_small(oct_inv4, cwbvh::octant(against) as u32);
            assert forall|j: u32| 24 <= j < 32 && #[trigger] bits::bit32(current_group.y, j) implies j
                == 31 by {
                lemma_group_bits(0, 0, j);
                bits::lemma_bit32_zero(j);
            }
            assert forall|j: u32| 24 <= j < 32 && #[trigger] bits::bit32(current_group.y, j) implies node_of(
                current_group,
                oct_inv4,
                j,
            ) < self.nodes@.len() by {
                bits::lemma_bit32_zero(j);
                lemma_slots((j - 24) as u32, oct_inv4 & 0xff, 0);
                assert forall|k: u32| k < slot_of(oct_inv4, j) as nat implies (
                #[trigger] bits::bit32(current_group.y, k) <==> bits::bit32(0, k)) by {
                    lemma_group_bits(0, 0, k);
                    bits::lemma_bit32_zero(k);
                }
                lemma_ones_same(current_group.y, 0, slot_of(oct_inv4, j) as nat);
                lemma_ones_zero(slot_of(oct_inv4, j) as nat);
            }
        }
        Traversal {
            stack,
            current_group,
            primitive_group: UVec2 { x: 0, y: 0 },
            oct_inv4,
            primitive_id: 0,
            hitmask: 0,
        }
    }

    /// Comes to the next primitive or node: the primitives of the last node that was visited come
    /// first, from the highest down, and nodes come in the order of their bits.
    pub fn next(&self, state: &mut Traversal) -> (r: TraversalStep)
        requires
            self.wf(),
            old(state).inv(self.nodes@.len()),
        ensures
            final(state).inv(self.nodes@.len()),
            stepped(self.nodes@, *old(state), *final(state), r),
    {
        if state.primitive_group.y != 0 {
            let local_primitive_index: u32 = cwbvh::firstbithigh(state.primitive_group.y);
            proof {
                lemma_group_bits(state.primitive_group.y, 0, local_primitive_index);
                bits::lemma_bit32_and_not(
                    state.primitive_group.y,
                    local_primitive_index,
                    local_primitive_index,
                );
            }
            state.primitive_group.y = state.primitive_group.y & !(1u32 << local_primitive_index);
            state.primitive_id = state.primitive_group.x + local_primitive_index;
            assert(primitive_taken(*old(state), *state, local_primitive_index));
            return TraversalStep::Primitive(state.primitive_id);
        }
        state.primitive_group = UVec2 { x: 0, y: 0 };
        proof {
            lemma_pending_mask(state.current_group);
        }
        if state.current_group.y & CHILD_HITS == 0 {
            state.current_group = UVec2 { x: 0, y: 0 };
            if state.stack.is_empty() {
                proof {
                    lemma_nothing_pending();
                }
                return TraversalStep::Done;
            }
            state.current_group = state.stack.pop_fast();
        }
        let ghost group = state.current_group;
        assert(source_group(*old(state)) == Some(group));
        let hits_imask: u32 = state.current_group.y;
        proof {
            lemma_pending_bit(group);
        }
        let child_index_offset: u32 = cwbvh::firstbithigh(hits_imask);
        assert(child_index_offset >= 24);
        let child_index_base: u32 = state.current_group.x;
        state.current_group.y = state.current_group.y & !(1u32 << child_index_offset);
        let ghost rest = state.current_group;
        proof {
            lemma_pending_mask(rest);
            lemma_group_rest(group, rest, state.oct_inv4, child_index_offset, self.nodes@.len());
            lemma_nothing_pending();
        }
        if state.current_group.y & CHILD_HITS != 0 {
            state.stack.push(state.current_group);
        }
        state.current_group = UVec2 { x: 0, y: 0 };
        proof {
            lemma_slots((child_index_offset - 24) as u32, state.oct_inv4 & 0xff, 0);
        }
        let slot_index: u32 = (child_index_offset - 24) ^ (state.oct_inv4 & 0xff);
        let relative_index: u32 = cwbvh::ones_under(hits_imask, slot_index);
        assert(node_of(group, state.oct_inv4, child_index_offset) < self.nodes@.len());
        let child_node_index: u32 = child_index_base + relative_index;
        assert(child_taken(*old(state), *state, child_index_offset));
        TraversalStep::Node(child_node_index)
    }

    /// Visits a node, given which of its children's boxes the ray hits.
    pub fn visit(&self, state: &mut Traversal, index: u32, hits: [bool; 8])
        requires
            self.wf(),
            index < self.nodes@.len(),
            old(state).inv(self.nodes@.len()),
        ensures
            final(state).inv(self.nodes@.len()),
            visited(self.nodes@, *old(state), *final(state), index, hits@),
    {
        let node: &CwBvhNode = &self.nodes[index as usize];
        state.hitmask = node.intersect_ray(hits, state.oct_inv4);
        state.current_group.x = node.child_base_idx;
        state.primitive_group.x = node.primitive_base_idx;
        state.current_group.y = (state.hitmask & 0xff000000) | (node.imask as u32);
        state.primitive_group.y = state.hitmask & 0x00ffffff;
        proof {
            lemma_group_bits(state.hitmask, 0, 0);
            assert(node_ok(*node, self.nodes@.len()));
            lemma_visit_group(
                *node,
                hits@,
                state.oct_inv4,
                state.hitmask,
                state.current_group,
                self.nodes@.len(),
            );
        }
    }
}

/// Whether a traversal has come to what it comes to next.
pub open spec fn stepped(
    nodes: Seq<CwBvhNode>,
    before: Traversal,
    after: Traversal,
    step: TraversalStep,
) -> bool {
    &&& after.oct_inv4 == before.oct_inv4
    &&& after.hitmask == before.hitmask
    &&& match step {
        TraversalStep::Primitive(id) => exists|h: u32|
            #[trigger] primitive_taken(before, after, h) && id == after.primitive_id,
        TraversalStep::Node(index) => index < nodes.len() && exists|j: u32|
            #[trigger] child_taken(before, after, j) && index == node_of(
                source_group(before)->0,
                before.oct_inv4,
                j,
            ),
        TraversalStep::Done => {
            &&& before.primitive_group.y == 0
            &&& source_group(before) is None
            &&& after.current_group == no_group()
            &&& after.primitive_group == no_group()
            &&& after.primitive_id == before.primitive_id
        },
    }
}

/// Whether a traversal has visited a node, given which of its children's boxes are hit.
pub open spec fn visited(
    nodes: Seq<CwBvhNode>,
    before: Traversal,
    after: Traversal,
    index: u32,
    hits: Seq<bool>,
) -> bool {
    let node = nodes[index as int];
    &&& after.stack == before.stack
    &&& after.oct_inv4 == before.oct_inv4
    &&& after.primitive_id == before.primitive_id
    &&& forall|k: u32|
        k < 32 ==> (#[trigger] bits::bit32(after.hitmask, k) <==> cwbvh::hit_bit(
            node.child_meta@,
            |c: int| before.oct_inv4 as u8,
            hits,
            8,
            k,
        ))
    &&& after.current_group.x == node.child_base_idx
    &&& after.current_group.y == (after.hitmask & 0xff000000) | (node.imask as u32)
    &&& after.primitive_group.x == node.primitive_base_idx
    &&& after.primitive_group.y == after.hitmask & 0x00ffffff
}

/// Whether the primitive of bit `h` has been taken out of the primitive group.
pub open spec fn primitive_taken(before: Traversal, after: Traversal, h: u32) -> bool {
    &&& is_highest(before.primitive_group.y, h)
    &&& after.primitive_group.x == before.primitive_group.x
    &&& after.primitive_group.y == before.primitive_group.y & !(1u32 << h)
    &&& after.primitive_id == before.primitive_group.x + h
    &&& after.current_group == before.current_group
    &&& after.stack == before.stack
}

/// A group without the child of bit `j`.
pub open spec fn without(group: UVec2, j: u32) -> UVec2 {
    UVec2 { x: group.x, y: group.y & !(1u32 << j) }
}

/// Whether the child of bit `j` has been taken out of the group that is next, and the rest of that
/// group is on the stack where there is one.
pub open spec fn child_taken(before: Traversal, after: Traversal, j: u32) -> bool {
    &&& before.primitive_group.y == 0
    &&& after.primitive_group == no_group()
    &&& after.primitive_id == before.primitive_id
    &&& after.current_group == no_group()
    &&& source_group(before) matches Some(group) && {
        let rest = without(group, j);
        let depth = if pending(before.current_group) {
            before.stack.depth()
        } else {
            (before.stack.depth() - 1) as nat
        };
        let slots = before.stack.slots();
        &&& 24 <= j < 32
        &&& is_highest(group.y, j)
        &&& if pending(rest) {
            &&& after.stack.slots() == slots.update(
                faststack::push_position(slots.len(), depth),
                rest,
            )
            &&& after.stack.depth() == (if depth < slots.len() {
                (depth + 1) as nat
            } else {
                slots.len()
            })
        } else {
            &&& after.stack.slots() == slots
            &&& after.stack.depth() == depth
        }
    }
}

pub proof fn lemma_nothing_pending()
    ensures
        !pending(no_group()),
        forall|oct_inv4: u32, n: nat| #[trigger] group_ok(no_group(), oct_inv4, n),
{
    assert forall|j: u32| 24 <= j < 32 implies !#[trigger] bits::bit32(no_group().y, j) by {
        bits::lemma_bit32_zero(j);
    }
}

proof fn lemma_pending_bit(group: UVec2)
    requires
        pending(group),
    ensures
        group.y != 0,
{
    let j = choose|j: u32| 24 <= j < 32 && #[trigger] bits::bit32(group.y, j);
    bits::lemma_bit32_nonzero(group.y, j);
}

/// A child of a group that a visit left is an internal node of a slot whose box is hit.
pub proof fn lemma_visit_child(
    node: CwBvhNode,
    hits: Seq<bool>,
    oct_inv4: u32,
    hitmask: u32,
    group: UVec2,
    n: nat,
    j: u32,
)
    requires
        node_ok(node, n),
        oct_inv4 & 0xff < 8,
        hits.len() == 8,
        forall|k: u32|
            k < 32 ==> (#[trigger] bits::bit32(hitmask, k) <==> cwbvh::hit_bit(
                node.child_meta@,
                |c: int| oct_inv4 as u8,
                hits,
                8,
                k,
            )),
        group.x == node.child_base_idx,
        group.y == (hitmask & 0xff000000) | (node.imask as u32),
        24 <= j < 32,
    ensures
        ({
            let c = slot_of(oct_inv4, j) as int;
            &&& 0 <= c < 8
            &&& bits::bit32(group.y, j) <==> hits[c] && cwbvh::is_inner(node.child_meta@[c])
            &&& bits::bit32(group.y, j) ==> bits::bit32(node.imask as u32, c as u32)
            &&& node_of(group, oct_inv4, j) == node.child_base_idx + bits::ones_below(
                node.imask as u32,
                c as nat,
            )
        }),
{
    let oct = oct_inv4 & 0xff;
    let octs = |c: int| oct_inv4 as u8;
    let slot = slot_of(oct_inv4, j) as int;
    assert(oct_inv4 as u8 == oct_inv4 & 0xff) by (bit_vector);
    lemma_slots((j - 24) as u32, oct, j);
    lemma_group_bits(hitmask, node.imask, j);
    assert forall|k: u32| k < slot as nat implies (#[trigger] bits::bit32(group.y, k)
        <==> bits::bit32(node.imask as u32, k)) by {
        lemma_group_bits(hitmask, node.imask, k);
    }
    lemma_ones_same(group.y, node.imask as u32, slot as nat);
    if bits::bit32(group.y, j) {
        assert(bits::bit32(hitmask, j));
        assert(cwbvh::hit_bit(node.child_meta@, octs, hits, 8, j));
        let c = choose|c: int|
            0 <= c < 8 && #[trigger] hits[c] && bits::bit32(
                cwbvh::contribution(node.child_meta@[c], octs(c)),
                j,
            );
        let meta = node.child_meta@[c];
        if !cwbvh::is_inner(meta) {
            lemma_group_bits(cwbvh::contribution(meta, 0), 0, j);
            assert(cwbvh::contribution(meta, octs(c)) == cwbvh::contribution(meta, 0));
            assert(false);
        }
        lemma_slots(c as u32, oct, j);
        assert(meta == 56 + c);
        assert(cwbvh::bit_index(meta, octs(c)) == ((((56 + c) as u8) ^ (oct as u8)) % 32) as u32);
        assert(j == 24 + ((c as u32) ^ oct));
        assert(slot == c);
    }
    if hits[slot] && cwbvh::is_inner(node.child_meta@[slot]) {
        let meta = node.child_meta@[slot];
        lemma_slots(slot as u32, oct, j);
        assert(meta == 56 + slot);
        assert(cwbvh::bit_index(meta, octs(slot)) == ((((56 + slot) as u8) ^ (oct as u8)) % 32) as u32);
        assert(bits::bit32(cwbvh::contribution(meta, octs(slot)), j));
        assert(cwbvh::hit_bit(node.child_meta@, octs, hits, 8, j));
        assert(bits::bit32(hitmask, j));
    }
}

/// The children of a node that are hit are nodes of the hierarchy, each another.
proof fn lemma_visit_group(
    node: CwBvhNode,
    hits: Seq<bool>,
    oct_inv4: u32,
    hitmask: u32,
    group: UVec2,
    n: nat,
)
    requires
        node_ok(node, n),
        oct_inv4 & 0xff < 8,
        hits.len() == 8,
        forall|k: u32|
            k < 32 ==> (#[trigger] bits::bit32(hitmask, k) <==> cwbvh::hit_bit(
                node.child_meta@,
                |c: int| oct_inv4 as u8,
                hits,
                8,
                k,
            )),
        group.x == node.child_base_idx,
        group.y == (hitmask & 0xff000000) | (node.imask as u32),
    ensures
        group_ok(group, oct_inv4, n),
{
    let imask = node.imask as u32;
    assert forall|j: u32| 24 <= j < 32 && #[trigger] bits::bit32(group.y, j) implies node_of(
        group,
        oct_inv4,
        j,
    ) < n by {
        lemma_visit_child(node, hits, oct_inv4, hitmask, group, n, j);
        lemma_ones_monotone(imask, slot_of(oct_inv4, j) as nat, 8);
    }
    assert forall|j: u32, k: u32|
        24 <= j < 32 && 24 <= k < 32 && j != k && #[trigger] bits::bit32(group.y, j)
            && #[trigger] bits::bit32(group.y, k) implies node_of(group, oct_inv4, j) != node_of(
        group,
        oct_inv4,
        k,
    ) by {
        lemma_visit_child(node, hits, oct_inv4, hitmask, group, n, j);
        lemma_visit_child(node, hits, oct_inv4, hitmask, group, n, k);
        lemma_slots((j - 24) as u32, oct_inv4 & 0xff, 0);
        lemma_slots((k - 24) as u32, oct_inv4 & 0xff, 0);
        let a = slot_of(oct_inv4, j) as nat;
        let b = slot_of(oct_inv4, k) as nat;
        assert(a != b);
        if a < b {
            lemma_ones_monotone(imask, a, b);
        } else {
            lemma_ones_monotone(imask, b, a);
        }
    }
}

proof fn lemma_octant_small(oct_inv4: u32, oct: u32)
    by (bit_vector)
    requires
        oct < 8,
        oct_inv4 == oct * 0x01010101,
    ensures
        oct_inv4 & 0xff == oct,
{
}

pub proof fn lemma_ones_zero(n: nat)
    requires
        n <= 32,
    ensures
        bits::ones_below(0, n) == 0,
    decreases n,
{
    if n > 0 {
        lemma_ones_zero((n - 1) as nat);
        bits::lemma_bit32_zero((n - 1) as u32);
    }
}

/// The number of children of a group that are still to be visited.
pub open spec fn group_work(group: UVec2) -> int {
    bits::ones_below(group.y, 32) - bits::ones_below(group.y, 24)
}

/// The number of children of the first `depth` groups on a stack that are still to be visited.
pub open spec fn stack_work(slots: Seq<UVec2>, depth: nat) -> int
    decreases depth,
{
    if depth == 0 {
        0
    } else {
        stack_work(slots, (depth - 1) as nat) + group_work(slots[depth - 1])
    }
}

/// The number of children that a traversal has found and not yet visited.
pub open spec fn work(state: Traversal) -> int {
    group_work(state.current_group) + stack_work(state.stack.slots(), state.stack.depth())
}

/// The number of primitives that a traversal has found and not yet come to.
pub open spec fn primitive_work(state: Traversal) -> nat {
    bits::ones(state.primitive_group.y)
}

proof fn lemma_ones_without(w: u32, j: u32, n: nat)
    requires
        j < 32,
        n <= 32,
        bits::bit32(w, j),
    ensures
        bits::ones_below(w & !(1u32 << j), n) == bits::ones_below(w, n) - (if j < n {
            1int
        } else {
            0
        }),
    decreases n,
{
    if n > 0 {
        lemma_ones_without(w, j, (n - 1) as nat);
        bits::lemma_bit32_and_not(w, j, (n - 1) as u32);
    }
}

proof fn lemma_no_ones(w: u32, a: nat, b: nat)
    requires
        a <= b <= 32,
        forall|k: u32| a <= k < b ==> !#[trigger] bits::bit32(w, k),
    ensures
        bits::ones_below(w, b) == bits::ones_below(w, a),
    decreases b,
{
    if a < b {
        assert(!bits::bit32(w, (b - 1) as u32));
        lemma_no_ones(w, a, (b - 1) as nat);
    }
}

proof fn lemma_stack_work_same(a: Seq<UVec2>, b: Seq<UVec2>, depth: nat)
    requires
        forall|i: int| 0 <= i < depth ==> a[i] == b[i],
    ensures
        stack_work(a, depth) == stack_work(b, depth),
    decreases depth,
{
    if depth > 0 {
        lemma_stack_work_same(a, b, (depth - 1) as nat);
    }
}

/// A primitive that a traversal comes to is one of those it has found, and the others stay.
pub proof fn law_primitive_comes_once(before: Traversal, after: Traversal, h: u32)
    requires
        primitive_taken(before, after, h),
    ensures
        primitive_work(after) + 1 == primitive_work(before),
        work(after) == work(before),
        forall|k: u32|
            k < 32 ==> (#[trigger] bits::bit32(after.primitive_group.y, k) <==> k != h && bits::bit32(
                before.primitive_group.y,
                k,
            )),
{
    lemma_ones_without(before.primitive_group.y, h, 32);
    assert forall|k: u32| k < 32 implies (#[trigger] bits::bit32(after.primitive_group.y, k) <==> k
        != h && bits::bit32(before.primitive_group.y, k)) by {
        bits::lemma_bit32_and_not(before.primitive_group.y, h, k);
    }
}

/// A node that a traversal comes to is one of the children it has found, and the others stay, unless
/// the rest of the current group finds the stack full.
pub proof fn law_child_comes_once(before: Traversal, after: Traversal, j: u32)
    requires
        before.stack.usable(),
        pending(before.current_group) && pending(without(before.current_group, j))
            ==> before.stack.depth() < before.stack.slots().len(),
        child_taken(before, after, j),
    ensures
        work(after) + 1 == work(before),
        primitive_work(after) == 0,
{
    let group = source_group(before)->0;
    let rest = without(group, j);
    let depth = if pending(before.current_group) {
        before.stack.depth()
    } else {
        (before.stack.depth() - 1) as nat
    };
    let slots = before.stack.slots();
    lemma_ones_without(group.y, j, 32);
    lemma_ones_without(group.y, j, 24);
    assert(group_work(rest) + 1 == group_work(group));
    lemma_nothing_pending();
    lemma_ones_zero(24);
    lemma_ones_zero(32);
    if !pending(before.current_group) {
        lemma_no_ones(before.current_group.y, 24, 32);
    }
    if pending(rest) {
        lemma_stack_work_same(slots, after.stack.slots(), depth);
    } else {
        lemma_no_ones(rest.y, 24, 32);
    }
}

/// A traversal that ends has come to everything that it found.
pub proof fn law_nothing_is_left(state: Traversal)
    requires
        state.primitive_group.y == 0,
        source_group(state) is None,
    ensures
        work(state) == 0,
        primitive_work(state) == 0,
{
    lemma_ones_zero(32);
    lemma_no_ones(state.current_group.y, 24, 32);
}

/// An internal child adds one bit, at the place that its slot has once the octant is taken into
/// account, and that bit leads back to the slot.
pub proof fn law_inner_bit(c: u32, oct_inv4: u32, k: u32)
    requires
        c < 8,
        oct_inv4 & 0xff < 8,
        k < 32,
    ensures
        bits::bit32(cwbvh::contribution((56 + c) as u8, oct_inv4 as u8), k) <==> k == 24 + (c ^ (
        oct_inv4 & 0xff)),
        slot_of(oct_inv4, (24 + (c ^ (oct_inv4 & 0xff))) as u32) == c,
{
    let oct = oct_inv4 & 0xff;
    assert(oct as u8 == oct_inv4 as u8) by (bit_vector)
        requires
            oct == oct_inv4 & 0xff,
    ;
    lemma_slots(c, oct, k);
    assert((56 + c) as u8 / 32 == 1);
}

/// The child or primitive that is taken is the one of the highest bit.
pub proof fn law_highest_comes_first(w: u32, j: u32, k: u32)
    requires
        is_highest(w, j),
        k < 32,
        (w >> k) & 1 == 1,
    ensures
        k <= j,
        (w >> j) & 1 == 1,
{
    assert(bits::bit32(w, k));
}

} // verus!
