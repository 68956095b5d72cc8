//! What whole traversals of a hierarchy come to.

use super::cwbvh;
use super::cwbvh::CwBvhNode;
use super::faststack::FastStack;
use super::traversal;
use super::traversal::Traversal;
use super::traversal::TraversalStep;
use crate::bits;
use crate::math::UVec2;
use vstd::prelude::*;

verus! {

/// One turn of a traversal: what it came to, and, of a node, which of its children's boxes are hit.
pub struct Turn {
    pub step: TraversalStep,
    pub hits: Seq<bool>,
}

/// One where something holds, else none.
pub open spec fn tally(holds: bool) -> int {
    if holds {
        1
    } else {
        0
    }
}

/// The node that a slot of a node with an internal child leads to.
pub open spec fn child_index(node: CwBvhNode, c: int) -> int {
    node.child_base_idx + bits::ones_below(node.imask as u32, c as nat)
}

/// Whether a slot of a node holds an internal node whose box is hit.
pub open spec fn opens(node: CwBvhNode, hits: Seq<bool>, c: int) -> bool {
    0 <= c < 8 && hits[c] && cwbvh::is_inner(node.child_meta@[c])
}

/// Whether a node is a child whose box is hit.
pub open spec fn found_child(node: CwBvhNode, hits: Seq<bool>, x: int) -> bool {
    exists|c: int| #[trigger] opens(node, hits, c) && x == child_index(node, c)
}

/// Whether a slot of a node is a leaf whose box is hit, and its bit `k` stands for a primitive.
pub open spec fn bares(node: CwBvhNode, hits: Seq<bool>, c: int, k: u32) -> bool {
    &&& 0 <= c < 8
    &&& hits[c]
    &&& !cwbvh::is_inner(node.child_meta@[c])
    &&& k < 24
    &&& bits::bit32(cwbvh::contribution(node.child_meta@[c], 0), k)
}

/// Whether a primitive is one of a leaf whose box is hit.
pub open spec fn found_primitive(node: CwBvhNode, hits: Seq<bool>, p: int) -> bool {
    exists|c: int, k: u32| #[trigger] bares(node, hits, c, k) && p == node.primitive_base_idx + k
}

/// Whether a node is among the children of a group that are still to be visited.
pub open spec fn group_has(group: UVec2, oct_inv4: u32, x: int) -> bool {
    exists|j: u32|
        24 <= j < 32 && #[trigger] bits::bit32(group.y, j) && x == traversal::node_of(
            group,
            oct_inv4,
            j,
        )
}

/// How often a node is among the children of the first `depth` groups of a stack.
pub open spec fn stack_has(slots: Seq<UVec2>, depth: nat, oct_inv4: u32, x: int) -> int
    decreases depth,
{
    if depth == 0 {
        0
    } else {
        stack_has(slots, (depth - 1) as nat, oct_inv4, x) + tally(
            group_has(slots[depth - 1], oct_inv4, x),
        )
    }
}

/// How often a node is still to be visited.
pub open spec fn nodes_left(state: Traversal, x: int) -> int {
    tally(group_has(state.current_group, state.oct_inv4, x)) + stack_has(
        state.stack.slots(),
        state.stack.depth(),
        state.oct_inv4,
        x,
    )
}

/// Whether a primitive is still to come.
pub open spec fn primitive_left(state: Traversal, p: int) -> bool {
    exists|k: u32|
        k < 24 && #[trigger] bits::bit32(state.primitive_group.y, k) && p == state.primitive_group.x
            + k
}

proof fn lemma_stack_has_same(a: Seq<UVec2>, b: Seq<UVec2>, depth: nat, oct_inv4: u32, x: int)
    requires
        forall|i: int| 0 <= i < depth ==> a[i] == b[i],
    ensures
        stack_has(a, depth, oct_inv4, x) == stack_has(b, depth, oct_inv4, x),
    decreases depth,
{
    if depth > 0 {
        lemma_stack_has_same(a, b, (depth - 1) as nat, oct_inv4, x);
    }
}

proof fn lemma_stack_has_bound(slots: Seq<UVec2>, depth: nat, oct_inv4: u32, x: int)
    ensures
        0 <= stack_has(slots, depth, oct_inv4, x),
    decreases depth,
{
    if depth > 0 {
        lemma_stack_has_bound(slots, (depth - 1) as nat, oct_inv4, x);
    }
}

/// Of a primitive that comes there is one less to come, and nothing else changes.
proof fn lemma_primitive_turn(before: Traversal, after: Traversal, h: u32, p: int, x: int)
    requires
        before.primitive_group.y < 0x1000000,
        traversal::primitive_taken(before, after, h),
        after.oct_inv4 == before.oct_inv4,
    ensures
        tally(primitive_left(before, p)) == tally(primitive_left(after, p)) + tally(
            p == after.primitive_id,
        ),
        nodes_left(before, x) == nodes_left(after, x),
{
    traversal::lemma_group_bits(before.primitive_group.y, 0, h);
    assert forall|k: u32| k < 32 implies (#[trigger] bits::bit32(after.primitive_group.y, k) <==> k
        != h && bits::bit32(before.primitive_group.y, k)) by {
        bits::lemma_bit32_and_not(before.primitive_group.y, h, k);
    }
    if primitive_left(before, p) && p != after.primitive_id {
        let k = choose|k: u32|
            k < 24 && #[trigger] bits::bit32(before.primitive_group.y, k) && p
                == before.primitive_group.x + k;
        assert(bits::bit32(after.primitive_group.y, k));
    }
    if primitive_left(after, p) {
        let k = choose|k: u32|
            k < 24 && #[trigger] bits::bit32(after.primitive_group.y, k) && p
                == after.primitive_group.x + k;
        assert(bits::bit32(before.primitive_group.y, k));
    }
    if p == after.primitive_id {
        assert(bits::bit32(before.primitive_group.y, h));
    }
}

/// Whether the rest of the group that the next child is taken from finds room on the stack.
pub open spec fn has_room(state: Traversal) -> bool {
    forall|j: u32| #[trigger]
        traversal::is_highest(state.current_group.y, j) && traversal::pending(state.current_group)
            && traversal::pending(traversal::without(state.current_group, j)) ==> state.stack.depth()
            < state.stack.slots().len()
}

proof fn lemma_group_without(group: UVec2, oct_inv4: u32, j: u32, n: nat, x: int)
    requires
        24 <= j < 32,
        oct_inv4 & 0xff < 8,
        bits::bit32(group.y, j),
        traversal::group_ok(group, oct_inv4, n),
    ensures
        tally(group_has(group, oct_inv4, x)) == tally(
            group_has(traversal::without(group, j), oct_inv4, x),
        ) + tally(x == traversal::node_of(group, oct_inv4, j)),
{
    let rest = traversal::without(group, j);
    traversal::lemma_group_rest(group, rest, oct_inv4, j, n);
    if group_has(group, oct_inv4, x) && x != traversal::node_of(group, oct_inv4, j) {
        let k = choose|k: u32|
            24 <= k < 32 && #[trigger] bits::bit32(group.y, k) && x == traversal::node_of(
                group,
                oct_inv4,
                k,
            );
        traversal::lemma_rest_node(group, rest, oct_inv4, k);
        assert(bits::bit32(rest.y, k));
    }
    if group_has(rest, oct_inv4, x) {
        let k = choose|k: u32|
            24 <= k < 32 && #[trigger] bits::bit32(rest.y, k) && x == traversal::node_of(
                rest,
                oct_inv4,
                k,
            );
        traversal::lemma_rest_node(group, rest, oct_inv4, k);
        assert(bits::bit32(group.y, k));
    }
}

/// Of a node that a traversal comes to there is one less to visit, and nothing else changes.
proof fn lemma_node_turn(before: Traversal, after: Traversal, j: u32, n: nat, x: int)
    requires
        before.inv(n),
        has_room(before),
        traversal::child_taken(before, after, j),
        after.oct_inv4 == before.oct_inv4,
    ensures
        nodes_left(before, x) == nodes_left(after, x) + tally(
            x == traversal::node_of(traversal::source_group(before)->0, before.oct_inv4, j),
        ),
        after.current_group == traversal::no_group(),
{
    let oct_inv4 = before.oct_inv4;
    let group = traversal::source_group(before)->0;
    let rest = traversal::without(group, j);
    let slots = before.stack.slots();
    let depth = if traversal::pending(before.current_group) {
        before.stack.depth()
    } else {
        (before.stack.depth() - 1) as nat
    };
    traversal::lemma_nothing_pending();
    lemma_group_without(group, oct_inv4, j, n, x);
    assert(!group_has(traversal::no_group(), oct_inv4, x)) by {
        if group_has(traversal::no_group(), oct_inv4, x) {
            assert(traversal::pending(traversal::no_group()));
        }
    }
    if !traversal::pending(before.current_group) {
        assert(!group_has(before.current_group, oct_inv4, x));
    }
    if traversal::pending(rest) {
        assert(depth < slots.len());
        lemma_stack_has_same(slots, after.stack.slots(), depth, oct_inv4, x);
    } else {
        assert(!group_has(rest, oct_inv4, x));
    }
}

/// A visit adds what it finds.
proof fn lemma_visit_turn(
    nodes: Seq<CwBvhNode>,
    before: Traversal,
    after: Traversal,
    index: u32,
    hits: Seq<bool>,
    x: int,
    p: int,
)
    requires
        index < nodes.len(),
        traversal::node_ok(nodes[index as int], nodes.len()),
        hits.len() == 8,
        before.inv(nodes.len()),
        before.current_group == traversal::no_group(),
        traversal::visited(nodes, before, after, index, hits),
    ensures
        nodes_left(after, x) == nodes_left(before, x) + tally(
            found_child(nodes[index as int], hits, x),
        ),
        primitive_left(after, p) <==> found_primitive(nodes[index as int], hits, p),
{
    let node = nodes[index as int];
    let oct_inv4 = before.oct_inv4;
    let group = after.current_group;
    traversal::lemma_nothing_pending();
    assert(!group_has(traversal::no_group(), oct_inv4, x)) by {
        if group_has(traversal::no_group(), oct_inv4, x) {
            assert(traversal::pending(traversal::no_group()));
        }
    }
    if group_has(group, oct_inv4, x) {
        let j = choose|j: u32|
            24 <= j < 32 && #[trigger] bits::bit32(group.y, j) && x == traversal::node_of(
                group,
                oct_inv4,
                j,
            );
        traversal::lemma_visit_child(node, hits, oct_inv4, after.hitmask, group, nodes.len(), j);
        assert(opens(node, hits, traversal::slot_of(oct_inv4, j) as int));
    }
    if found_child(node, hits, x) {
        let c = choose|c: int| #[trigger] opens(node, hits, c) && x == child_index(node, c);
        let j = (24 + ((c as u32) ^ (oct_inv4 & 0xff))) as u32;
        traversal::lemma_slots(c as u32, oct_inv4 & 0xff, 0);
        traversal::lemma_visit_child(node, hits, oct_inv4, after.hitmask, group, nodes.len(), j);
        assert(traversal::slot_of(oct_inv4, j) == c);
        assert(bits::bit32(group.y, j));
    }
    lemma_visit_primitives(nodes, before, after, index, hits, p);
}

proof fn lemma_visit_primitives(
    nodes: Seq<CwBvhNode>,
    before: Traversal,
    after: Traversal,
    index: u32,
    hits: Seq<bool>,
    p: int,
)
    requires
        index < nodes.len(),
        traversal::node_ok(nodes[index as int], nodes.len()),
        hits.len() == 8,
        before.oct_inv4 & 0xff < 8,
        traversal::visited(nodes, before, after, index, hits),
    ensures
        primitive_left(after, p) <==> found_primitive(nodes[index as int], hits, p),
{
    let node = nodes[index as int];
    let oct_inv4 = before.oct_inv4;
    let oct = oct_inv4 & 0xff;
    let octs = |c: int| oct_inv4 as u8;
    assert(oct_inv4 as u8 == oct_inv4 & 0xff) by (bit_vector);
    if primitive_left(after, p) {
        let k = choose|k: u32|
            k < 24 && #[trigger] bits::bit32(after.primitive_group.y, k) && p
                == after.primitive_group.x + k;
        traversal::lemma_group_bits(after.hitmask, 0, k);
        assert(bits::bit32(after.hitmask, k));
        assert(cwbvh::hit_bit(node.child_meta@, octs, hits, 8, k));
        let c = choose|c: int|
            0 <= c < 8 && #[trigger] hits[c] && bits::bit32(
                cwbvh::contribution(node.child_meta@[c], octs(c)),
                k,
            );
        let meta = node.child_meta@[c];
        if cwbvh::is_inner(meta) {
            assert(meta == 56 + c);
            traversal::lemma_slots(c as u32, oct, k);
            assert(cwbvh::bit_index(meta, octs(c)) == ((((56 + c) as u8) ^ (oct as u8)) % 32) as u32);
            assert(false);
        }
        assert(cwbvh::contribution(meta, octs(c)) == cwbvh::contribution(meta, 0));
        assert(bares(node, hits, c, k));
    }
    if found_primitive(node, hits, p) {
        let (c, k) = choose|c: int, k: u32| #[trigger]
            bares(node, hits, c, k) && p == node.primitive_base_idx + k;
        let meta = node.child_meta@[c];
        assert(cwbvh::contribution(meta, octs(c)) == cwbvh::contribution(meta, 0));
        assert(hits[c]);
        assert(cwbvh::hit_bit(node.child_meta@, octs, hits, 8, k));
        traversal::lemma_group_bits(after.hitmask, 0, k);
        assert(bits::bit32(after.hitmask, k));
        assert(bits::bit32(after.primitive_group.y, k));
    }
}

/// Whether a turn has been taken: a primitive has come, or a node has come and has been visited.
pub open spec fn turned(
    nodes: Seq<CwBvhNode>,
    before: Traversal,
    turn: Turn,
    after: Traversal,
) -> bool {
    match turn.step {
        TraversalStep::Primitive(_) => traversal::stepped(nodes, before, after, turn.step),
        TraversalStep::Node(index) => turn.hits.len() == 8 && exists|come: Traversal|
            traversal::stepped(nodes, before, come, turn.step) && come.inv(nodes.len())
                && #[trigger] traversal::visited(nodes, come, after, index, turn.hits),
        TraversalStep::Done => false,
    }
}

/// Whether a traversal has just been started.
pub open spec fn fresh(nodes: Seq<CwBvhNode>, state: Traversal) -> bool {
    &&& state.inv(nodes.len())
    &&& state.stack.depth() == 0
    &&& state.current_group == (if nodes.len() == 0 {
        traversal::no_group()
    } else {
        traversal::root_group()
    })
    &&& state.primitive_group == traversal::no_group()
}

/// Whether nothing is left for a traversal to come to.
pub open spec fn ended(state: Traversal) -> bool {
    state.primitive_group.y == 0 && traversal::source_group(state) is None
}

/// Whether turns lead a traversal of a hierarchy from its start through the states, without the rest
/// of a group ever finding the stack full.
pub open spec fn is_run(nodes: Seq<CwBvhNode>, states: Seq<Traversal>, turns: Seq<Turn>) -> bool {
    &&& states.len() == turns.len() + 1
    &&& forall|i: int|
        0 <= i < nodes.len() ==> traversal::node_ok(#[trigger] nodes[i], nodes.len())
    &&& fresh(nodes, states[0])
    &&& forall|i: int| 0 <= i < states.len() ==> (#[trigger] states[i]).inv(nodes.len())
    &&& forall|i: int|
        0 <= i < turns.len() ==> turned(nodes, states[i], #[trigger] turns[i], states[i + 1])
    &&& forall|i: int| 0 <= i < turns.len() ==> #[trigger] has_room(states[i])
}

/// How often a primitive has come.
pub open spec fn comes(turns: Seq<Turn>, p: int) -> int
    decreases turns.len(),
{
    if turns.len() == 0 {
        0
    } else {
        comes(turns.drop_last(), p) + tally(
            turns.last().step matches TraversalStep::Primitive(id) && id == p,
        )
    }
}

/// How often a node has been visited.
pub open spec fn visits(turns: Seq<Turn>, x: int) -> int
    decreases turns.len(),
{
    if turns.len() == 0 {
        0
    } else {
        visits(turns.drop_last(), x) + tally(
            turns.last().step matches TraversalStep::Node(index) && index == x,
        )
    }
}

/// Whether a turn visits a node and finds a primitive.
pub open spec fn finds_primitive(nodes: Seq<CwBvhNode>, turn: Turn, p: int) -> bool {
    turn.step matches TraversalStep::Node(index) && found_primitive(
        nodes[index as int],
        turn.hits,
        p,
    )
}

/// Whether a turn visits a node and finds another.
pub open spec fn finds_child(nodes: Seq<CwBvhNode>, turn: Turn, x: int) -> bool {
    turn.step matches TraversalStep::Node(index) && found_child(nodes[index as int], turn.hits, x)
}

/// How often a primitive has been found.
pub open spec fn primitive_finds(nodes: Seq<CwBvhNode>, turns: Seq<Turn>, p: int) -> int
    decreases turns.len(),
{
    if turns.len() == 0 {
        0
    } else {
        primitive_finds(nodes, turns.drop_last(), p) + tally(
            finds_primitive(nodes, turns.last(), p),
        )
    }
}

/// How often a node has been found.
pub open spec fn child_finds(nodes: Seq<CwBvhNode>, turns: Seq<Turn>, x: int) -> int
    decreases turns.len(),
{
    if turns.len() == 0 {
        0
    } else {
        child_finds(nodes, turns.drop_last(), x) + tally(finds_child(nodes, turns.last(), x))
    }
}

proof fn lemma_fresh(nodes: Seq<CwBvhNode>, state: Traversal, x: int, p: int)
    requires
        fresh(nodes, state),
    ensures
        nodes_left(state, x) == tally(nodes.len() > 0 && x == 0),
        !primitive_left(state, p),
{
    let group = state.current_group;
    let oct_inv4 = state.oct_inv4;
    assert forall|k: u32| k < 32 implies !#[trigger] bits::bit32(traversal::no_group().y, k) by {
        bits::lemma_bit32_zero(k);
    }
    assert forall|j: u32| 24 <= j < 32 && #[trigger] bits::bit32(group.y, j) implies nodes.len() > 0
        && j == 31 by {
        traversal::lemma_group_bits(0, 0, j);
    }
    if nodes.len() > 0 {
        traversal::lemma_group_bits(0, 0, 31);
        assert(bits::bit32(group.y, 31));
        traversal::lemma_slots(7, oct_inv4 & 0xff, 0);
        let slot = traversal::slot_of(oct_inv4, 31) as nat;
        assert forall|k: u32| k < slot implies (#[trigger] bits::bit32(group.y, k) <==> bits::bit32(
            0,
            k,
        )) by {
            traversal::lemma_group_bits(0, 0, k);
            bits::lemma_bit32_zero(k);
        }
        traversal::lemma_ones_same(group.y, 0, slot);
        traversal::lemma_ones_zero(slot);
        assert(traversal::node_of(group, oct_inv4, 31) == 0);
        if x == 0 {
            assert(group_has(group, oct_inv4, x));
        }
    }
}

proof fn lemma_ended(state: Traversal, x: int, p: int)
    requires
        ended(state),
    ensures
        nodes_left(state, x) == 0,
        !primitive_left(state, p),
{
    assert(!group_has(state.current_group, state.oct_inv4, x));
    assert forall|k: u32| k < 24 implies !#[trigger] bits::bit32(state.primitive_group.y, k) by {
        bits::lemma_bit32_zero(k);
    }
}

/// What is left of a node and of a primitive before and after a turn.
proof fn lemma_turn(
    nodes: Seq<CwBvhNode>,
    before: Traversal,
    turn: Turn,
    after: Traversal,
    x: int,
    p: int,
)
    requires
        forall|i: int|
            0 <= i < nodes.len() ==> traversal::node_ok(#[trigger] nodes[i], nodes.len()),
        before.inv(nodes.len()),
        has_room(before),
        turned(nodes, before, turn, after),
    ensures
        tally(turn.step matches TraversalStep::Primitive(id) && id == p) + tally(
            primitive_left(after, p),
        ) == tally(primitive_left(before, p)) + tally(finds_primitive(nodes, turn, p)),
        tally(turn.step matches TraversalStep::Node(index) && index == x) + nodes_left(after, x)
            == nodes_left(before, x) + tally(finds_child(nodes, turn, x)),
        turn.step matches TraversalStep::Node(index) ==> index < nodes.len() && nodes_left(
            before,
            index as int,
        ) >= 1,
{
    match turn.step {
        TraversalStep::Primitive(id) => {
            let h = choose|h: u32| #[trigger]
                traversal::primitive_taken(before, after, h) && id == after.primitive_id;
            lemma_primitive_turn(before, after, h, p, x);
        },
        TraversalStep::Node(index) => {
            let come = choose|come: Traversal|
                traversal::stepped(nodes, before, come, turn.step) && come.inv(nodes.len())
                    && #[trigger] traversal::visited(nodes, come, after, index, turn.hits);
            let j = choose|j: u32| #[trigger]
                traversal::child_taken(before, come, j) && index == traversal::node_of(
                    traversal::source_group(before)->0,
                    before.oct_inv4,
                    j,
                );
            lemma_node_turn(before, come, j, nodes.len(), x);
            lemma_node_turn(before, come, j, nodes.len(), index as int);
            lemma_visit_turn(nodes, come, after, index, turn.hits, x, p);
            lemma_stack_has_bound(
                come.stack.slots(),
                come.stack.depth(),
                come.oct_inv4,
                index as int,
            );
            assert forall|k: u32| k < 24 implies !#[trigger] bits::bit32(
                before.primitive_group.y,
                k,
            ) by {
                bits::lemma_bit32_zero(k);
            }
        },
        TraversalStep::Done => {},
    }
}

/// After any number of turns, what has been found has come or is still left.
proof fn lemma_run(
    nodes: Seq<CwBvhNode>,
    states: Seq<Traversal>,
    turns: Seq<Turn>,
    n: nat,
    x: int,
    p: int,
)
    requires
        is_run(nodes, states, turns),
        n <= turns.len(),
    ensures
        comes(turns.take(n as int), p) + tally(primitive_left(states[n as int], p))
            == primitive_finds(nodes, turns.take(n as int), p),
        visits(turns.take(n as int), x) + nodes_left(states[n as int], x) == tally(
            nodes.len() > 0 && x == 0,
        ) + child_finds(nodes, turns.take(n as int), x),
    decreases n,
{
    if n == 0 {
        lemma_fresh(nodes, states[0], x, p);
    } else {
        let m = n - 1;
        lemma_run(nodes, states, turns, m as nat, x, p);
        assert(turns.take(n as int).drop_last() =~= turns.take(m));
        assert(turns.take(n as int).last() == turns[m]);
        assert(has_room(states[m]));
        assert(turned(nodes, states[m], turns[m], states[m + 1]));
        assert(states[m].inv(nodes.len()));
        lemma_turn(nodes, states[m], turns[m], states[n as int], x, p);
    }
}

/// A traversal that ends has come to everything as often as it was found, and to nothing else: to
/// each primitive as often as a visit found it in a leaf whose box is hit, and to each node as often
/// as a visit found it in a slot whose box is hit, and to the root once more.
pub proof fn law_run_comes_to_what_it_finds(
    nodes: Seq<CwBvhNode>,
    states: Seq<Traversal>,
    turns: Seq<Turn>,
    x: int,
    p: int,
)
    requires
        is_run(nodes, states, turns),
        ended(states.last()),
    ensures
        comes(turns, p) == primitive_finds(nodes, turns, p),
        visits(turns, x) == tally(nodes.len() > 0 && x == 0) + child_finds(nodes, turns, x),
{
    lemma_run(nodes, states, turns, turns.len(), x, p);
    lemma_ended(states.last(), x, p);
    assert(turns.take(turns.len() as int) =~= turns);
}

/// Whether the visits of a node are all given the same answers.
pub open spec fn answered(turns: Seq<Turn>, answers: spec_fn(int) -> Seq<bool>) -> bool {
    forall|i: int|
        0 <= i < turns.len() ==> ((#[trigger] turns[i]).step matches TraversalStep::Node(index)
            ==> turns[i].hits == answers(index as int))
}

/// The node that slots lead to from the root, each a slot of the node before.
pub open spec fn path_end(nodes: Seq<CwBvhNode>, path: Seq<int>) -> int
    decreases path.len(),
{
    if path.len() == 0 {
        0
    } else {
        child_index(nodes[path_end(nodes, path.drop_last())], path.last())
    }
}

/// Whether slots lead from the root through internal nodes alone, the boxes of all of which are hit.
pub open spec fn path_open(
    nodes: Seq<CwBvhNode>,
    answers: spec_fn(int) -> Seq<bool>,
    path: Seq<int>,
) -> bool
    decreases path.len(),
{
    if path.len() == 0 {
        nodes.len() > 0
    } else {
        let last = path_end(nodes, path.drop_last());
        path_open(nodes, answers, path.drop_last()) && opens(nodes[last], answers(last), path.last())
    }
}

/// Whether a node can be reached from the root through boxes that are hit.
pub open spec fn reached(
    nodes: Seq<CwBvhNode>,
    answers: spec_fn(int) -> Seq<bool>,
    x: int,
) -> bool {
    exists|path: Seq<int>| #[trigger] path_open(nodes, answers, path) && path_end(nodes, path) == x
}

/// Whether a primitive is one of a leaf that can be reached, boxes that are hit all the way.
pub open spec fn primitive_reached(
    nodes: Seq<CwBvhNode>,
    answers: spec_fn(int) -> Seq<bool>,
    p: int,
) -> bool {
    exists|m: int| #[trigger]
        reached(nodes, answers, m) && found_primitive(nodes[m], answers(m), p)
}

/// Whether a turn visits a node.
pub open spec fn visits_node(turn: Turn, x: int) -> bool {
    turn.step matches TraversalStep::Node(index) && index == x
}

proof fn lemma_some_visit(turns: Seq<Turn>, x: int)
    ensures
        0 <= visits(turns, x),
        visits(turns, x) > 0 <==> exists|i: int|
            0 <= i < turns.len() && visits_node(#[trigger] turns[i], x),
    decreases turns.len(),
{
    if turns.len() > 0 {
        let before = turns.drop_last();
        lemma_some_visit(before, x);
        if visits(before, x) > 0 {
            let i = choose|i: int| 0 <= i < before.len() && visits_node(#[trigger] before[i], x);
            assert(visits_node(turns[i], x));
        }
        if exists|i: int| 0 <= i < turns.len() && visits_node(#[trigger] turns[i], x) {
            let i = choose|i: int| 0 <= i < turns.len() && visits_node(#[trigger] turns[i], x);
            if i < before.len() {
                assert(visits_node(before[i], x));
            }
        }
        assert(turns.last() == turns[turns.len() - 1]);
    }
}

proof fn lemma_some_child_find(nodes: Seq<CwBvhNode>, turns: Seq<Turn>, x: int)
    ensures
        0 <= child_finds(nodes, turns, x),
        child_finds(nodes, turns, x) > 0 <==> exists|i: int|
            0 <= i < turns.len() && finds_child(nodes, #[trigger] turns[i], x),
    decreases turns.len(),
{
    if turns.len() > 0 {
        let before = turns.drop_last();
        lemma_some_child_find(nodes, before, x);
        if child_finds(nodes, before, x) > 0 {
            let i = choose|i: int|
                0 <= i < before.len() && finds_child(nodes, #[trigger] before[i], x);
            assert(finds_child(nodes, turns[i], x));
        }
        if exists|i: int| 0 <= i < turns.len() && finds_child(nodes, #[trigger] turns[i], x) {
            let i = choose|i: int|
                0 <= i < turns.len() && finds_child(nodes, #[trigger] turns[i], x);
            if i < before.len() {
                assert(finds_child(nodes, before[i], x));
            }
        }
        assert(turns.last() == turns[turns.len() - 1]);
    }
}

proof fn lemma_some_primitive_find(nodes: Seq<CwBvhNode>, turns: Seq<Turn>, p: int)
    ensures
        0 <= primitive_finds(nodes, turns, p),
        primitive_finds(nodes, turns, p) > 0 <==> exists|i: int|
            0 <= i < turns.len() && finds_primitive(nodes, #[trigger] turns[i], p),
    decreases turns.len(),
{
    if turns.len() > 0 {
        let before = turns.drop_last();
        lemma_some_primitive_find(nodes, before, p);
        if primitive_finds(nodes, before, p) > 0 {
            let i = choose|i: int|
                0 <= i < before.len() && finds_primitive(nodes, #[trigger] before[i], p);
            assert(finds_primitive(nodes, turns[i], p));
        }
        if exists|i: int| 0 <= i < turns.len() && finds_primitive(nodes, #[trigger] turns[i], p) {
            let i = choose|i: int|
                0 <= i < turns.len() && finds_primitive(nodes, #[trigger] turns[i], p);
            if i < before.len() {
                assert(finds_primitive(nodes, before[i], p));
            }
        }
        assert(turns.last() == turns[turns.len() - 1]);
    }
}

/// A node that is visited is the root, or an earlier visit found it.
proof fn lemma_found_before(
    nodes: Seq<CwBvhNode>,
    states: Seq<Traversal>,
    turns: Seq<Turn>,
    i: int,
    x: int,
)
    requires
        is_run(nodes, states, turns),
        0 <= i < turns.len(),
        visits_node(turns[i], x),
    ensures
        0 <= x < nodes.len(),
        visits(turns.take(i), x) + 1 <= tally(x == 0) + child_finds(nodes, turns.take(i), x),
{
    assert(has_room(states[i]));
    assert(turned(nodes, states[i], turns[i], states[i + 1]));
    assert(states[i].inv(nodes.len()));
    lemma_turn(nodes, states[i], turns[i], states[i + 1], x, 0);
    lemma_run(nodes, states, turns, i as nat, x, 0);
}

proof fn lemma_visited_is_reached(
    nodes: Seq<CwBvhNode>,
    states: Seq<Traversal>,
    turns: Seq<Turn>,
    answers: spec_fn(int) -> Seq<bool>,
    i: int,
    x: int,
)
    requires
        is_run(nodes, states, turns),
        answered(turns, answers),
        0 <= i < turns.len(),
        visits_node(turns[i], x),
    ensures
        reached(nodes, answers, x),
    decreases i,
{
    lemma_found_before(nodes, states, turns, i, x);
    lemma_some_visit(turns.take(i), x);
    if x == 0 {
        assert(path_open(nodes, answers, Seq::<int>::empty()));
    } else {
        let earlier = turns.take(i);
        lemma_some_child_find(nodes, earlier, x);
        let j = choose|j: int|
            0 <= j < earlier.len() && finds_child(nodes, #[trigger] earlier[j], x);
        assert(earlier[j] == turns[j]);
        let m = turns[j].step->Node_0 as int;
        lemma_visited_is_reached(nodes, states, turns, answers, j, m);
        let path = choose|path: Seq<int>| #[trigger]
            path_open(nodes, answers, path) && path_end(nodes, path) == m;
        let c = choose|c: int| #[trigger]
            opens(nodes[m], turns[j].hits, c) && x == child_index(nodes[m], c);
        let longer = path.push(c);
        assert(longer.drop_last() =~= path);
        assert(path_open(nodes, answers, longer));
        assert(path_end(nodes, longer) == x);
    }
}

proof fn lemma_open_is_visited(
    nodes: Seq<CwBvhNode>,
    states: Seq<Traversal>,
    turns: Seq<Turn>,
    answers: spec_fn(int) -> Seq<bool>,
    path: Seq<int>,
)
    requires
        is_run(nodes, states, turns),
        ended(states.last()),
        answered(turns, answers),
        path_open(nodes, answers, path),
    ensures
        visits(turns, path_end(nodes, path)) > 0,
    decreases path.len(),
{
    let x = path_end(nodes, path);
    law_run_comes_to_what_it_finds(nodes, states, turns, x, 0);
    lemma_some_child_find(nodes, turns, x);
    if path.len() > 0 {
        let m = path_end(nodes, path.drop_last());
        lemma_open_is_visited(nodes, states, turns, answers, path.drop_last());
        lemma_some_visit(turns, m);
        let i = choose|i: int| 0 <= i < turns.len() && visits_node(#[trigger] turns[i], m);
        assert(turns[i].hits == answers(m));
        assert(opens(nodes[m], turns[i].hits, path.last()));
        assert(finds_child(nodes, turns[i], x));
    }
}

/// A traversal that ends has come to the nodes that can be reached from the root through boxes that
/// are hit, and to the primitives of the leaves whose boxes are hit among theirs, and to nothing
/// else.
pub proof fn law_run_comes_to_what_is_hit(
    nodes: Seq<CwBvhNode>,
    states: Seq<Traversal>,
    turns: Seq<Turn>,
    answers: spec_fn(int) -> Seq<bool>,
    x: int,
    p: int,
)
    requires
        is_run(nodes, states, turns),
        ended(states.last()),
        answered(turns, answers),
    ensures
        visits(turns, x) > 0 <==> reached(nodes, answers, x),
        comes(turns, p) > 0 <==> primitive_reached(nodes, answers, p),
{
    lemma_reached(nodes, states, turns, answers, x);
    law_run_comes_to_what_it_finds(nodes, states, turns, x, p);
    lemma_some_primitive_find(nodes, turns, p);
    if comes(turns, p) > 0 {
        let i = choose|i: int|
            0 <= i < turns.len() && finds_primitive(nodes, #[trigger] turns[i], p);
        let m = turns[i].step->Node_0 as int;
        assert(visits_node(turns[i], m));
        lemma_visited_is_reached(nodes, states, turns, answers, i, m);
    }
    if primitive_reached(nodes, answers, p) {
        let m = choose|m: int| #[trigger]
            reached(nodes, answers, m) && found_primitive(nodes[m], answers(m), p);
        lemma_reached(nodes, states, turns, answers, m);
        lemma_some_visit(turns, m);
        let i = choose|i: int| 0 <= i < turns.len() && visits_node(#[trigger] turns[i], m);
        assert(turns[i].hits == answers(m));
        assert(finds_primitive(nodes, turns[i], p));
    }
}

proof fn lemma_reached(
    nodes: Seq<CwBvhNode>,
    states: Seq<Traversal>,
    turns: Seq<Turn>,
    answers: spec_fn(int) -> Seq<bool>,
    x: int,
)
    requires
        is_run(nodes, states, turns),
        ended(states.last()),
        answered(turns, answers),
    ensures
        visits(turns, x) > 0 <==> reached(nodes, answers, x),
{
    lemma_some_visit(turns, x);
    if visits(turns, x) > 0 {
        let i = choose|i: int| 0 <= i < turns.len() && visits_node(#[trigger] turns[i], x);
        lemma_visited_is_reached(nodes, states, turns, answers, i, x);
    }
    if reached(nodes, answers, x) {
        let path = choose|path: Seq<int>| #[trigger]
            path_open(nodes, answers, path) && path_end(nodes, path) == x;
        lemma_open_is_visited(nodes, states, turns, answers, path);
    }
}

/// The answers of a ray that hits every box.
pub open spec fn all_hit() -> Seq<bool> {
    Seq::new(8, |c: int| true)
}

/// Whether the nodes of a hierarchy are a tree: no two slots lead to the same node, none leads to the
/// root, and no two nodes have a primitive in common.
pub open spec fn is_tree(nodes: Seq<CwBvhNode>) -> bool {
    &&& forall|m: int, c: int, n: int, d: int|
        0 <= m < nodes.len() && 0 <= n < nodes.len() && #[trigger] opens(nodes[m], all_hit(), c)
            && #[trigger] opens(nodes[n], all_hit(), d) && child_index(nodes[m], c) == child_index(
            nodes[n],
            d,
        ) ==> m == n && c == d
    &&& forall|m: int, c: int|
        0 <= m < nodes.len() && #[trigger] opens(nodes[m], all_hit(), c) ==> child_index(
            nodes[m],
            c,
        ) != 0
    &&& forall|m: int, n: int, p: int|
        0 <= m < nodes.len() && 0 <= n < nodes.len() && #[trigger] found_primitive(
            nodes[m],
            all_hit(),
            p,
        ) && #[trigger] found_primitive(nodes[n], all_hit(), p) ==> m == n
}

proof fn lemma_child_finds_bound(nodes: Seq<CwBvhNode>, turns: Seq<Turn>, x: int, q: int)
    requires
        forall|i: int|
            0 <= i < turns.len() && finds_child(nodes, #[trigger] turns[i], x) ==> visits_node(
                turns[i],
                q,
            ),
    ensures
        child_finds(nodes, turns, x) <= visits(turns, q),
    decreases turns.len(),
{
    if turns.len() > 0 {
        let before = turns.drop_last();
        assert forall|i: int|
            0 <= i < before.len() && finds_child(nodes, #[trigger] before[i], x) implies visits_node(
            before[i],
            q,
        ) by {
            assert(before[i] == turns[i]);
        }
        lemma_child_finds_bound(nodes, before, x, q);
        assert(turns.last() == turns[turns.len() - 1]);
    }
}

proof fn lemma_primitive_finds_bound(nodes: Seq<CwBvhNode>, turns: Seq<Turn>, p: int, q: int)
    requires
        forall|i: int|
            0 <= i < turns.len() && finds_primitive(nodes, #[trigger] turns[i], p) ==> visits_node(
                turns[i],
                q,
            ),
    ensures
        primitive_finds(nodes, turns, p) <= visits(turns, q),
    decreases turns.len(),
{
    if turns.len() > 0 {
        let before = turns.drop_last();
        assert forall|i: int|
            0 <= i < before.len() && finds_primitive(nodes, #[trigger] before[i], p) implies visits_node(
            before[i],
            q,
        ) by {
            assert(before[i] == turns[i]);
        }
        lemma_primitive_finds_bound(nodes, before, p, q);
        assert(turns.last() == turns[turns.len() - 1]);
    }
}

/// The node that a turn finds a child from is one of the hierarchy, and its slot is one of it.
proof fn lemma_finder(
    nodes: Seq<CwBvhNode>,
    states: Seq<Traversal>,
    turns: Seq<Turn>,
    i: int,
    x: int,
) -> (r: (int, int))
    requires
        is_run(nodes, states, turns),
        0 <= i < turns.len(),
        finds_child(nodes, turns[i], x),
    ensures
        visits_node(turns[i], r.0),
        0 <= r.0 < nodes.len(),
        opens(nodes[r.0], all_hit(), r.1),
        child_index(nodes[r.0], r.1) == x,
{
    let m = turns[i].step->Node_0 as int;
    assert(visits_node(turns[i], m));
    lemma_found_before(nodes, states, turns, i, m);
    let c = choose|c: int| #[trigger]
        opens(nodes[m], turns[i].hits, c) && x == child_index(nodes[m], c);
    assert(opens(nodes[m], all_hit(), c));
    (m, c)
}

proof fn lemma_visits_once(
    nodes: Seq<CwBvhNode>,
    states: Seq<Traversal>,
    turns: Seq<Turn>,
    n: nat,
    x: int,
)
    requires
        is_run(nodes, states, turns),
        is_tree(nodes),
        n <= turns.len(),
    ensures
        visits(turns.take(n as int), x) <= 1,
    decreases n,
{
    if n > 0 {
        let m = n - 1;
        let earlier = turns.take(m);
        assert(turns.take(n as int).drop_last() =~= earlier);
        assert(turns.take(n as int).last() == turns[m]);
        lemma_visits_once(nodes, states, turns, m as nat, x);
        if visits_node(turns[m], x) {
            lemma_found_before(nodes, states, turns, m, x);
            lemma_some_visit(earlier, x);
            lemma_some_child_find(nodes, earlier, x);
            if child_finds(nodes, earlier, x) > 0 {
                let j = choose|j: int|
                    0 <= j < earlier.len() && finds_child(nodes, #[trigger] earlier[j], x);
                assert(earlier[j] == turns[j]);
                let (q, c) = lemma_finder(nodes, states, turns, j, x);
                assert forall|i: int|
                    0 <= i < earlier.len() && finds_child(nodes, #[trigger] earlier[i], x) implies visits_node(
                    earlier[i],
                    q,
                ) by {
                    assert(earlier[i] == turns[i]);
                    let (other, d) = lemma_finder(nodes, states, turns, i, x);
                    assert(other == q);
                }
                lemma_child_finds_bound(nodes, earlier, x, q);
                lemma_visits_once(nodes, states, turns, m as nat, q);
            }
        }
    }
}

/// In a tree, a traversal that ends has come exactly once to each primitive of a leaf that can be
/// reached from the root through boxes that are hit, and to no other; and likewise to each node.
pub proof fn law_tree_primitive_comes_once(
    nodes: Seq<CwBvhNode>,
    states: Seq<Traversal>,
    turns: Seq<Turn>,
    answers: spec_fn(int) -> Seq<bool>,
    x: int,
    p: int,
)
    requires
        is_tree(nodes),
        is_run(nodes, states, turns),
        ended(states.last()),
        answered(turns, answers),
    ensures
        visits(turns, x) == tally(reached(nodes, answers, x)),
        comes(turns, p) == tally(primitive_reached(nodes, answers, p)),
{
    law_run_comes_to_what_is_hit(nodes, states, turns, answers, x, p);
    law_run_comes_to_what_it_finds(nodes, states, turns, x, p);
    assert(turns.take(turns.len() as int) =~= turns);
    lemma_visits_once(nodes, states, turns, turns.len(), x);
    lemma_some_visit(turns, x);
    lemma_some_primitive_find(nodes, turns, p);
    if primitive_finds(nodes, turns, p) > 0 {
        let j = choose|j: int|
            0 <= j < turns.len() && finds_primitive(nodes, #[trigger] turns[j], p);
        let q = turns[j].step->Node_0 as int;
        lemma_holder(nodes, states, turns, j, p);
        assert forall|i: int|
            0 <= i < turns.len() && finds_primitive(nodes, #[trigger] turns[i], p) implies visits_node(
            turns[i],
            q,
        ) by {
            lemma_holder(nodes, states, turns, i, p);
        }
        lemma_primitive_finds_bound(nodes, turns, p, q);
        lemma_visits_once(nodes, states, turns, turns.len(), q);
    }
}

/// The node that a turn finds a primitive in has it.
proof fn lemma_holder(
    nodes: Seq<CwBvhNode>,
    states: Seq<Traversal>,
    turns: Seq<Turn>,
    i: int,
    p: int,
)
    requires
        is_run(nodes, states, turns),
        0 <= i < turns.len(),
        finds_primitive(nodes, turns[i], p),
    ensures
        turns[i].step->Node_0 < nodes.len(),
        found_primitive(nodes[turns[i].step->Node_0 as int], all_hit(), p),
{
    let m = turns[i].step->Node_0 as int;
    assert(visits_node(turns[i], m));
    lemma_found_before(nodes, states, turns, i, m);
    let (c, k) = choose|c: int, k: u32| #[trigger]
        bares(nodes[m], turns[i].hits, c, k) && p == nodes[m].primitive_base_idx + k;
    assert(bares(nodes[m], all_hit(), c, k));
}

} // verus!
