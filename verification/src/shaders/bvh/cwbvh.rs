//! The nodes of a compressed wide bounding volume hierarchy, and the order in which they are
//! visited.

use crate::bits;
use vstd::prelude::*;

verus! {

/// The number of children of a node.
pub const BRANCHING: usize = 8;

/// The number of groups of children that a traversal keeps for later.
pub const TRAVERSAL_STACK_SIZE: usize = 32;

/// Byte `b` of a number, counted from the lowest.
pub open spec fn byte_of(x: int, b: int) -> int {
    (x / vstd::arithmetic::power::pow(256, b as nat)) % 256
}

proof fn lemma_extract_byte(x: u32, b: u32)
    by (bit_vector)
    requires
        b < 4,
    ensures
        (x >> ((b * 8) as u32)) & 0xff == (if b == 0 {
            x % 256
        } else if b == 1 {
            (x / 256) % 256
        } else if b == 2 {
            (x / 65536) % 256
        } else {
            (x / 16777216) % 256
        }),
{
}

proof fn lemma_extract_byte64(x: u64, b: u64)
    by (bit_vector)
    requires
        b < 8,
    ensures
        ((x >> ((b * 8) as u64)) as u32) & 0xff == (if b == 0 {
            x % 256
        } else if b == 1 {
            (x / 256) % 256
        } else if b == 2 {
            (x / 65536) % 256
        } else if b == 3 {
            (x / 16777216) % 256
        } else if b == 4 {
            (x / 0x1_0000_0000) % 256
        } else if b == 5 {
            (x / 0x100_0000_0000) % 256
        } else if b == 6 {
            (x / 0x1_0000_0000_0000) % 256
        } else {
            (x / 0x100_0000_0000_0000) % 256
        }),
{
}

proof fn lemma_pow256()
    ensures
        vstd::arithmetic::power::pow(256, 0) == 1,
        vstd::arithmetic::power::pow(256, 1) == 256,
        vstd::arithmetic::power::pow(256, 2) == 65536,
        vstd::arithmetic::power::pow(256, 3) == 16777216,
        vstd::arithmetic::power::pow(256, 4) == 0x1_0000_0000,
        vstd::arithmetic::power::pow(256, 5) == 0x100_0000_0000,
        vstd::arithmetic::power::pow(256, 6) == 0x1_0000_0000_0000,
        vstd::arithmetic::power::pow(256, 7) == 0x100_0000_0000_0000,
{
    reveal_with_fuel(vstd::arithmetic::power::pow, 9);
}

/// Byte `b` of `x`, counted from the lowest.
#[inline(always)]
pub fn extract_byte(x: u32, b: u32) -> (r: u32)
    requires
        b < 4,
    ensures
        r == byte_of(x as int, b as int),
{
    proof {
        lemma_extract_byte(x, b);
        lemma_pow256();
    }
    (x >> (b * 8)) & 0xFFu32
}

/// Byte `b` of `x`, counted from the lowest.
#[inline(always)]
pub fn extract_byte64(x: u64, b: usize) -> (r: u32)
    requires
        b < 8,
    ensures
        r == byte_of(x as int, b as int),
{
    proof {
        lemma_extract_byte64(x, b as u64);
        lemma_pow256();
    }
    ((x >> (b as u64 * 8)) as u32) & 0xFFu32
}

/// The highest set bit of a word that is not zero.
#[inline(always)]
pub fn firstbithigh(value: u32) -> (r: u32)
    requires
        value != 0,
    ensures
        r < 32,
        bits::bit32(value, r),
        forall|j: u32| r < j < 32 ==> !#[trigger] bits::bit32(value, j),
{
    proof {
        bits::lemma_bit32_highest(value);
    }
    31 - value.leading_zeros()
}

/// A Compressed Wide BVH8 Node.
#[derive(Clone, Copy, Debug, PartialEq, Eq)]
pub struct CwBvhNode {
    /// Min point of node AABB, each coordinate as the bits of an `f32`
    pub p: [u32; 3],
    /// Exponent of child bounding box compression
    pub e: [u8; 3],
    /// Bitmask indicating which children are internal nodes. 1 for internal, 0 for leaf
    pub imask: u8,
    /// Index of first child among the nodes
    pub child_base_idx: u32,
    /// Index of first primitive among the primitive indices
    pub primitive_base_idx: u32,
    /// Meta data for each child
    /// Empty child slot: The field is set to 00000000
    ///
    /// For leaves nodes: the low 5 bits store the primitive offset [0..24) from primitive_base_idx.
    /// And the high 3 bits store the number of primitives in that leaf in a unary encoding.
    /// A child leaf with 2 primitives with the first primitive starting at primitive_base_idx would
    /// be 0b01100000
    /// A child leaf with 3 primitives with the first primitive starting at primitive_base_idx + 2
    /// would be 0b11100010
    /// A child leaf with 1 primitive with the first primitive starting at primitive_base_idx + 1
    /// would be 0b00100001
    ///
    /// For internal nodes: The high 3 bits are set to 001 while the low 5 bits store the child slot
    /// index plus 24, i.e., the values range [24..32)
    pub child_meta: [u8; 8],
    /// Axis planes for each child.
    pub child_min_x: [u8; 8],
    pub child_max_x: [u8; 8],
    pub child_min_y: [u8; 8],
    pub child_max_y: [u8; 8],
    pub child_min_z: [u8; 8],
    pub child_max_z: [u8; 8],
}

/// Whether the meta data is that of an internal node: its low 5 bits are at least 24.
pub open spec fn is_inner(meta: u8) -> bool {
    meta % 32 >= 24
}

/// The bit of a hit mask at which the bits of a child start: the order in which an internal node
/// is visited, biased by 24, or the offset of the first primitive of a leaf.
pub open spec fn bit_index(meta: u8, oct: u8) -> u32 {
    if is_inner(meta) {
        ((meta ^ oct) % 32) as u32
    } else {
        (meta % 32) as u32
    }
}

/// The bits of a child: one for an internal node, one for each primitive of a leaf.
pub open spec fn child_bits(meta: u8) -> u32 {
    (meta / 32) as u32
}

/// What a child adds to a hit mask.
pub open spec fn contribution(meta: u8, oct: u8) -> u32 {
    child_bits(meta) << bit_index(meta, oct)
}

proof fn lemma_meta_parts(meta: u8, oct: u32)
    by (bit_vector)
    ensures
        ((meta as u32) & ((meta as u32) << 1) & 0b00010000 != 0) <==> meta % 32 >= 24,
        ((meta as u32) ^ (oct & 0xff)) & 0b00011111 == (meta ^ (oct as u8)) % 32,
        (meta as u32) & 0b00011111 == meta % 32,
        ((meta as u32) >> 5) & 0b00000111 == meta / 32,
        meta & 0b11111 == meta % 32,
{
}

proof fn lemma_bytes8(a: u64, b: u64, c: u64, d: u64, e: u64, f: u64, g: u64, h: u64, w: u64)
    by (bit_vector)
    requires
        a < 256,
        b < 256,
        c < 256,
        d < 256,
        e < 256,
        f < 256,
        g < 256,
        h < 256,
        w == a | (b << 8) | (c << 16) | (d << 24) | (e << 32) | (f << 40) | (g << 48) | (h << 56),
    ensures
        (w >> 0u64) & 0xff == a,
        (w >> 8u64) & 0xff == b,
        (w >> 16u64) & 0xff == c,
        (w >> 24u64) & 0xff == d,
        (w >> 32u64) & 0xff == e,
        (w >> 40u64) & 0xff == f,
        (w >> 48u64) & 0xff == g,
        (w >> 56u64) & 0xff == h,
{
}

proof fn lemma_packed_children(meta8: u64, oct8: u64, k: u64, inner8: u64, index8: u64, bits8: u64)
    by (bit_vector)
    requires
        k == 0 || k == 8 || k == 16 || k == 24 || k == 32 || k == 40 || k == 48 || k == 56,
        inner8 == (meta8 & (meta8 << 1)) & 0x1010101010101010,
        index8 == (meta8 ^ (oct8 & (((inner8 >> 4) * 0xff) as u64))) & 0x1f1f1f1f1f1f1f1f,
        bits8 == (meta8 >> 5) & 0x0707070707070707,
    ensures
        (inner8 >> 4) * 0xff <= 0xffff_ffff_ffff_ffff,
        (bits8 >> k) & 0xff == ((meta8 >> k) & 0xff) / 32,
        (index8 >> k) & 0xff == (if ((meta8 >> k) & 0xff) % 32 >= 24 {
            (((meta8 >> k) & 0xff) ^ ((oct8 >> k) & 0xff)) % 32
        } else {
            ((meta8 >> k) & 0xff) % 32
        }),
{
}

/// Whether bit `k` of a hit mask is owed to one of the first `n` children: the child is hit, and
/// it adds that bit.
pub open spec fn hit_bit(
    meta: Seq<u8>,
    octs: spec_fn(int) -> u8,
    hits: Seq<bool>,
    n: int,
    k: u32,
) -> bool {
    exists|c: int|
        0 <= c < n && #[trigger] hits[c] && bits::bit32(contribution(meta[c], octs(c)), k)
}

proof fn lemma_hit_bit_step(
    meta: Seq<u8>,
    octs: spec_fn(int) -> u8,
    hits: Seq<bool>,
    n: int,
    before: u32,
    after: u32,
)
    requires
        0 <= n < 8,
        hits.len() == 8,
        forall|k: u32|
            k < 32 ==> (#[trigger] bits::bit32(before, k) <==> hit_bit(meta, octs, hits, n, k)),
        after == (if hits[n] {
            before | contribution(meta[n], octs(n))
        } else {
            before
        }),
    ensures
        forall|k: u32|
            k < 32 ==> (#[trigger] bits::bit32(after, k) <==> hit_bit(meta, octs, hits, n + 1, k)),
{
    assert forall|k: u32| k < 32 implies (#[trigger] bits::bit32(after, k) <==> hit_bit(
        meta,
        octs,
        hits,
        n + 1,
        k,
    )) by {
        bits::lemma_bit32_or_xor(before, contribution(meta[n], octs(n)), k);
        assert(bits::bit32(before, k) <==> hit_bit(meta, octs, hits, n, k));
        if hits[n] && bits::bit32(contribution(meta[n], octs(n)), k) {
            assert(hit_bit(meta, octs, hits, n + 1, k));
        }
        if hit_bit(meta, octs, hits, n, k) {
            let c = choose|c: int|
                0 <= c < n && #[trigger] hits[c] && bits::bit32(contribution(meta[c], octs(c)), k);
            assert(hits[c]);
            assert(hit_bit(meta, octs, hits, n + 1, k));
        }
    }
}

impl CwBvhNode {
    /// The bits of the scale of the children's boxes along each axis.
    pub fn extent_bits(&self) -> (r: [u32; 3])
        ensures
            r@[0] == self.e@[0] * 0x80_0000,
            r@[1] == self.e@[1] * 0x80_0000,
            r@[2] == self.e@[2] * 0x80_0000,
    {
        proof {
            lemma_exponent(self.e@[0]);
            lemma_exponent(self.e@[1]);
            lemma_exponent(self.e@[2]);
        }
        [(self.e[0] as u32) << 23, (self.e[1] as u32) << 23, (self.e[2] as u32) << 23]
    }

    /// The planes of a child's box, relative to the node: the near and the far one along each
    /// axis, for a ray of which is given whether it runs against the axes.
    pub fn child_planes(&self, child: usize, against: [bool; 3]) -> (r: ([u8; 3], [u8; 3]))
        requires
            child < 8,
        ensures
            r.0@[0] == if against@[0] { self.child_max_x@[child as int] } else { self.child_min_x@[child as int] },
            r.1@[0] == if against@[0] { self.child_min_x@[child as int] } else { self.child_max_x@[child as int] },
            r.0@[1] == if against@[1] { self.child_max_y@[child as int] } else { self.child_min_y@[child as int] },
            r.1@[1] == if against@[1] { self.child_min_y@[child as int] } else { self.child_max_y@[child as int] },
            r.0@[2] == if against@[2] { self.child_max_z@[child as int] } else { self.child_min_z@[child as int] },
            r.1@[2] == if against@[2] { self.child_min_z@[child as int] } else { self.child_max_z@[child as int] },
    {
        let lo: [u8; 3] = [
            self.child_min_x[child],
            self.child_min_y[child],
            self.child_min_z[child],
        ];
        let hi: [u8; 3] = [
            self.child_max_x[child],
            self.child_max_y[child],
            self.child_max_z[child],
        ];
        let near: [u8; 3] = [
            if against[0] { hi[0] } else { lo[0] },
            if against[1] { hi[1] } else { lo[1] },
            if against[2] { hi[2] } else { lo[2] },
        ];
        let far: [u8; 3] = [
            if against[0] { lo[0] } else { hi[0] },
            if against[1] { lo[1] } else { hi[1] },
            if against[2] { lo[2] } else { hi[2] },
        ];
        (near, far)
    }

    /// For each child, in a byte of its own: the bits that it adds to a hit mask, and the bit at
    /// which they start.
    pub fn get_child_and_index_bits(&self, oct_inv4: u32) -> (r: (u64, u64))
        ensures
            forall|c: int|
                0 <= c < 8 ==> {
                    &&& #[trigger] byte_of(r.0 as int, c) == child_bits(self.child_meta@[c])
                    &&& byte_of(r.1 as int, c) == bit_index(
                        self.child_meta@[c],
                        oct_byte(oct_inv4, c),
                    )
                },
    {
        let m: [u8; 8] = self.child_meta;
        let meta8: u64 = m[0] as u64 | ((m[1] as u64) << 8) | ((m[2] as u64) << 16) | ((m[3] as u64)
            << 24) | ((m[4] as u64) << 32) | ((m[5] as u64) << 40) | ((m[6] as u64) << 48) | ((
        m[7] as u64) << 56);
        let mut oct_inv8: u64 = oct_inv4 as u64;
        oct_inv8 = oct_inv8 | (oct_inv8 << 32);
        let is_inner8: u64 = (meta8 & (meta8 << 1)) & 0x1010101010101010;
        let ghost index = (meta8 ^ (oct_inv8 & (((is_inner8 >> 4) * 0xff) as u64)))
            & 0x1f1f1f1f1f1f1f1f;
        let ghost child = (meta8 >> 5) & 0x0707070707070707;
        proof {
            lemma_packed_children(meta8, oct_inv8, 0, is_inner8, index, child);
        }
        let inner_mask8: u64 = (is_inner8 >> 4) * 0xffu64;
        let bit_index8: u64 = (meta8 ^ (oct_inv8 & inner_mask8)) & 0x1f1f1f1f1f1f1f1f;
        let child_bits8: u64 = (meta8 >> 5) & 0x0707070707070707;
        proof {
            lemma_bytes8(
                m[0] as u64,
                m[1] as u64,
                m[2] as u64,
                m[3] as u64,
                m[4] as u64,
                m[5] as u64,
                m[6] as u64,
                m[7] as u64,
                meta8,
            );
            assert forall|c: int| 0 <= c < 8 implies {
                &&& #[trigger] byte_of(child_bits8 as int, c) == child_bits(self.child_meta@[c])
                &&& byte_of(bit_index8 as int, c) == bit_index(
                    self.child_meta@[c],
                    oct_byte(oct_inv4, c),
                )
            } by {
                let k = (c * 8) as u64;
                lemma_packed_children(meta8, oct_inv8, k, is_inner8, index, child);
                lemma_byte_shift(child_bits8, c as u64);
                lemma_byte_shift(bit_index8, c as u64);
                lemma_oct8(oct_inv4, oct_inv8, c as u64);
                assert(c == 0 || c == 1 || c == 2 || c == 3 || c == 4 || c == 5 || c == 6 || c == 7);
                assert((meta8 >> k) & 0xff == m@[c]);
            }
        }
        (child_bits8, bit_index8)
    }

    /// The hit mask of a node, given which children's boxes a ray hits.
    pub fn intersect_ray_basic(&self, hits: [bool; 8], oct_inv4: u32) -> (r: u32)
        ensures
            forall|k: u32|
                k < 32 ==> (#[trigger] bits::bit32(r, k) <==> hit_bit(
                    self.child_meta@,
                    |c: int| oct_inv4 as u8,
                    hits@,
                    8,
                    k,
                )),
    {
        let mut hit_mask: u32 = 0;
        let ghost octs = |c: int| oct_inv4 as u8;
        proof {
            assert forall|k: u32| k < 32 implies (#[trigger] bits::bit32(hit_mask, k) <==> hit_bit(
                self.child_meta@,
                octs,
                hits@,
                0,
                k,
            )) by {
                bits::lemma_bit32_zero(k);
            }
        }
        let mut child: usize = 0;
        while child < 8
            invariant
                child <= 8,
                octs == (|c: int| oct_inv4 as u8),
                forall|k: u32|
                    k < 32 ==> (#[trigger] bits::bit32(hit_mask, k) <==> hit_bit(
                        self.child_meta@,
                        octs,
                        hits@,
                        child as int,
                        k,
                    )),
            decreases 8 - child,
        {
            let ghost before = hit_mask;
            if hits[child] {
                proof {
                    lemma_meta_parts(self.child_meta@[child as int], oct_inv4);
                }
                let meta: u32 = self.child_meta[child] as u32;
                let is_inner: bool = (meta & (meta << 1) & 0b00010000) != 0;
                let bit_index: u32 = if is_inner {
                    (meta ^ (oct_inv4 & 0xff)) & 0b00011111
                } else {
                    meta & 0b00011111
                };
                let child_bits: u32 = (meta >> 5) & 0b00000111;
                hit_mask = hit_mask | (child_bits << bit_index);
            }
            proof {
                lemma_hit_bit_step(
                    self.child_meta@,
                    octs,
                    hits@,
                    child as int,
                    before,
                    hit_mask,
                );
            }
            child += 1;
        }
        hit_mask
    }

    /// The hit mask of a node, given which children's boxes a ray hits.
    #[inline(always)]
    pub fn intersect_ray(&self, hits: [bool; 8], oct_inv4: u32) -> (r: u32)
        ensures
            forall|k: u32|
                k < 32 ==> (#[trigger] bits::bit32(r, k) <==> hit_bit(
                    self.child_meta@,
                    |c: int| oct_inv4 as u8,
                    hits@,
                    8,
                    k,
                )),
    {
        self.intersect_ray_basic(hits, oct_inv4)
    }

    /// The hit mask of a node, given which children's boxes meet a box.
    #[inline(always)]
    pub fn intersect_aabb(&self, hits: [bool; 8], oct_inv4: u32) -> (r: u32)
        ensures
            forall|k: u32|
                k < 32 ==> (#[trigger] bits::bit32(r, k) <==> hit_bit(
                    self.child_meta@,
                    |c: int| oct_byte(oct_inv4, c),
                    hits@,
                    8,
                    k,
                )),
    {
        self.packed_hit_mask(hits, oct_inv4)
    }

    /// The hit mask of a node, given which children's boxes contain a point.
    #[inline(always)]
    pub fn contains_point(&self, hits: [bool; 8], oct_inv4: u32) -> (r: u32)
        ensures
            forall|k: u32|
                k < 32 ==> (#[trigger] bits::bit32(r, k) <==> hit_bit(
                    self.child_meta@,
                    |c: int| oct_byte(oct_inv4, c),
                    hits@,
                    8,
                    k,
                )),
    {
        self.packed_hit_mask(hits, oct_inv4)
    }

    fn packed_hit_mask(&self, hits: [bool; 8], oct_inv4: u32) -> (r: u32)
        ensures
            forall|k: u32|
                k < 32 ==> (#[trigger] bits::bit32(r, k) <==> hit_bit(
                    self.child_meta@,
                    |c: int| oct_byte(oct_inv4, c),
                    hits@,
                    8,
                    k,
                )),
    {
        let mut hit_mask: u32 = 0;
        let ghost octs = |c: int| oct_byte(oct_inv4, c);
        proof {
            assert forall|k: u32| k < 32 implies (#[trigger] bits::bit32(hit_mask, k) <==> hit_bit(
                self.child_meta@,
                octs,
                hits@,
                0,
                k,
            )) by {
                bits::lemma_bit32_zero(k);
            }
        }
        let (child_bits8, bit_index8): (u64, u64) = self.get_child_and_index_bits(oct_inv4);
        let mut child: usize = 0;
        while child < 8
            invariant
                child <= 8,
                octs == (|c: int| oct_byte(oct_inv4, c)),
                forall|c: int|
                    0 <= c < 8 ==> {
                        &&& #[trigger] byte_of(child_bits8 as int, c) == child_bits(
                            self.child_meta@[c],
                        )
                        &&& byte_of(bit_index8 as int, c) == bit_index(
                            self.child_meta@[c],
                            oct_byte(oct_inv4, c),
                        )
                    },
                forall|k: u32|
                    k < 32 ==> (#[trigger] bits::bit32(hit_mask, k) <==> hit_bit(
                        self.child_meta@,
                        octs,
                        hits@,
                        child as int,
                        k,
                    )),
            decreases 8 - child,
        {
            let ghost before = hit_mask;
            if hits[child] {
                let child_bits: u32 = extract_byte64(child_bits8, child);
                let bit_index: u32 = extract_byte64(bit_index8, child);
                hit_mask = hit_mask | (child_bits << bit_index);
            }
            proof {
                lemma_hit_bit_step(
                    self.child_meta@,
                    octs,
                    hits@,
                    child as int,
                    before,
                    hit_mask,
                );
            }
            child += 1;
        }
        hit_mask
    }

    /// Whether a child is a leaf. If the child is empty this will also return true.
    #[inline(always)]
    pub fn is_leaf(&self, child: usize) -> (r: bool)
        requires
            child < 8,
        ensures
            r == !bits::bit32(self.imask as u32, child as u32),
    {
        proof {
            lemma_imask_bit(self.imask, child as u32);
        }
        (self.imask as u32 & (1u32 << (child as u32))) == 0
    }

    /// Whether there is no child in a slot.
    #[inline(always)]
    pub fn is_child_empty(&self, child: usize) -> (r: bool)
        requires
            child < 8,
        ensures
            r == (self.child_meta@[child as int] == 0),
    {
        self.child_meta[child] == 0
    }

    /// Returns the primitive starting index and primitive count for the given child.
    #[inline(always)]
    pub fn child_primitives(&self, child: usize) -> (r: (u32, u32))
        requires
            child < 8,
            self.primitive_base_idx + self.child_meta@[child as int] % 32 <= u32::MAX,
        ensures
            r.0 == self.primitive_base_idx + self.child_meta@[child as int] % 32,
            r.1 == primitive_count(self.child_meta@[child as int]),
    {
        let child_meta: u8 = self.child_meta[child];
        proof {
            lemma_meta_parts(child_meta, 0);
        }
        let starting_index: u32 = self.primitive_base_idx + (child_meta & 0b11111) as u32;
        let primitive_count: u32 = (child_meta / 32 % 2 + child_meta / 64 % 2 + child_meta
            / 128) as u32;
        (starting_index, primitive_count)
    }

    /// Returns the node index of the given child, which must be an internal node.
    #[inline(always)]
    pub fn child_node_index(&self, child: usize) -> (r: u32)
        requires
            child < 8,
            is_inner(self.child_meta@[child as int]),
            self.child_base_idx + 7 <= u32::MAX,
        ensures
            r == self.child_base_idx + bits::ones_below(
                self.imask as u32,
                (self.child_meta@[child as int] % 32 - 24) as nat,
            ),
    {
        let child_meta: u8 = self.child_meta[child];
        proof {
            lemma_meta_parts(child_meta, 0);
        }
        let slot_index: u32 = (child_meta & 0b11111) as u32 - 24;
        let relative_index: u32 = ones_under(self.imask as u32, slot_index);
        self.child_base_idx + relative_index
    }
}

/// The number of primitives of a leaf: the number of set bits among the high 3 bits.
pub open spec fn primitive_count(meta: u8) -> int {
    meta / 32 % 2 + meta / 64 % 2 + meta / 128
}

/// Counts the set bits of `w` below bit `s`.
pub fn ones_under(w: u32, s: u32) -> (r: u32)
    requires
        s < 32,
    ensures
        r == bits::ones_below(w, s as nat),
        r <= s,
{
    proof {
        bits::lemma_ones_masked(w, s);
    }
    bits::count_ones(w & !(0xffffffffu32 << s))
}

proof fn lemma_imask_bit(imask: u8, c: u32)
    by (bit_vector)
    requires
        c < 8,
    ensures
        ((imask as u32) & (1u32 << c) == 0) <==> !(((imask as u32) >> c) & 1 == 1),
{
}

/// The octant that the packed form of a hit mask uses for a child.
pub open spec fn oct_byte(oct_inv4: u32, child: int) -> u8 {
    byte_of(oct_inv4 as int, child % 4) as u8
}

proof fn lemma_byte_shift(x: u64, c: u64)
    requires
        c < 8,
    ensures
        (x >> ((c * 8) as u64)) & 0xff == byte_of(x as int, c as int),
{
    lemma_extract_byte64(x, c);
    lemma_pow256();
    let y = x >> ((c * 8) as u64);
    assert((y as u32) & 0xff == y & 0xff) by (bit_vector);
}

proof fn lemma_oct8(oct_inv4: u32, oct_inv8: u64, c: u64)
    requires
        c < 8,
        oct_inv8 == (oct_inv4 as u64) | ((oct_inv4 as u64) << 32),
    ensures
        (oct_inv8 >> ((c * 8) as u64)) & 0xff == oct_byte(oct_inv4, c as int),
{
    lemma_extract_byte(oct_inv4, (c % 4) as u32);
    lemma_pow256();
    assert((oct_inv8 >> ((c * 8) as u64)) & 0xff == (oct_inv4 >> (((c % 4) * 8) as u32)) & 0xff)
        by (bit_vector)
        requires
            c < 8,
            oct_inv8 == (oct_inv4 as u64) | ((oct_inv4 as u64) << 32),
    ;
}

proof fn lemma_exponent(e: u8)
    by (bit_vector)
    ensures
        (e as u32) << 23 == e * 0x80_0000,
{
}

/// The octant of a direction, inverted: bit 2 is for the first axis, bit 1 for the second and bit 0
/// for the third, set where the direction does not run against the axis. Each byte holds it.
pub fn octant_inv4(against: [bool; 3]) -> (r: u32)
    ensures
        r == octant(against) * 0x01010101,
{
    let x: u32 = if against[0] {
        0
    } else {
        0x04040404
    };
    let y: u32 = if against[1] {
        0
    } else {
        0x02020202
    };
    let z: u32 = if against[2] {
        0
    } else {
        0x01010101
    };
    proof {
        assert(x | y | z == x + y + z) by (bit_vector)
            requires
                x == 0 || x == 0x04040404,
                y == 0 || y == 0x02020202,
                z == 0 || z == 0x01010101,
        ;
    }
    x | y | z
}

/// The octant of a direction, inverted.
pub open spec fn octant(against: [bool; 3]) -> int {
    (if against@[0] { 0int } else { 4 }) + (if against@[1] { 0int } else { 2 }) + (if against@[2] {
        0int
    } else {
        1
    })
}

/// The bytes of a number make the number.
pub proof fn law_bytes_make_number(x: u64)
    ensures
        ({
            let b = |i: int| byte_of(x as int, i);
            &&& forall|i: int| 0 <= i < 8 ==> 0 <= #[trigger] byte_of(x as int, i) < 256
            &&& b(0) + b(1) * 256 + b(2) * 65536 + b(3) * 16777216 + b(4) * 0x1_0000_0000 + b(5)
                * 0x100_0000_0000 + b(6) * 0x1_0000_0000_0000 + b(7) * 0x100_0000_0000_0000 == x
        }),
{
    lemma_pow256();
    assert(x / 65536 == x / 256 / 256);
    assert(x / 16777216 == x / 65536 / 256);
    assert(x / 0x1_0000_0000 == x / 16777216 / 256);
    assert(x / 0x100_0000_0000 == x / 0x1_0000_0000 / 256);
    assert(x / 0x1_0000_0000_0000 == x / 0x100_0000_0000 / 256);
    assert(x / 0x100_0000_0000_0000 == x / 0x1_0000_0000_0000 / 256);
}

/// The octant of a direction has a bit for each axis, the first axis highest, that is set where the
/// direction does not run against the axis, and each byte of the packed form holds it.
pub proof fn law_octant_bits(against: [bool; 3], b: int)
    requires
        0 <= b < 4,
    ensures
        0 <= octant(against) < 8,
        octant(against) / 4 == 0 <==> against@[0],
        octant(against) / 2 % 2 == 0 <==> against@[1],
        octant(against) % 2 == 0 <==> against@[2],
        byte_of(octant(against) * 0x01010101, b) == octant(against),
{
    lemma_pow256();
}

/// The packed form of a hit mask takes the octant of a child from the byte of its place among four.
pub proof fn law_octant_of_child(oct_inv4: u32, child: int)
    requires
        0 <= child < 8,
    ensures
        child % 4 == 0 ==> oct_byte(oct_inv4, child) == oct_inv4 % 256,
        child % 4 == 1 ==> oct_byte(oct_inv4, child) == oct_inv4 / 256 % 256,
        child % 4 == 2 ==> oct_byte(oct_inv4, child) == oct_inv4 / 65536 % 256,
        child % 4 == 3 ==> oct_byte(oct_inv4, child) == oct_inv4 / 16777216,
{
    lemma_pow256();
}

proof fn lemma_leaf_bits(offset: u32, ones: u32, k: u32)
    by (bit_vector)
    requires
        offset < 24,
        k < 32,
        ones == 0 || ones == 1 || ones == 3 || ones == 7,
    ensures
        ((ones << offset) >> k) & 1 == 1 <==> offset <= k && k < offset + (if ones == 0 {
            0int
        } else if ones == 1 {
            1
        } else if ones == 3 {
            2
        } else {
            3
        }),
{
}

/// A leaf adds a bit for each of its primitives, from the offset of the first on. The number of
/// primitives is written as ones: one, two or three of them.
pub proof fn law_leaf_bits(meta: u8, oct: u8, k: u32)
    requires
        meta % 32 < 24,
        meta / 32 == 0 || meta / 32 == 1 || meta / 32 == 3 || meta / 32 == 7,
        k < 32,
    ensures
        bits::bit32(contribution(meta, oct), k) <==> meta % 32 <= k < meta % 32 + primitive_count(
            meta,
        ),
        meta / 32 == 0 ==> primitive_count(meta) == 0,
        meta / 32 == 1 ==> primitive_count(meta) == 1,
        meta / 32 == 3 ==> primitive_count(meta) == 2,
        meta / 32 == 7 ==> primitive_count(meta) == 3,
{
    lemma_leaf_bits((meta % 32) as u32, (meta / 32) as u32, k);
}

/// A child that is hit counts, whichever of the eight it is, and only such children do.
pub proof fn law_every_child_counts(
    meta: Seq<u8>,
    octs: spec_fn(int) -> u8,
    hits: Seq<bool>,
    c: int,
    k: u32,
)
    requires
        0 <= c < 8,
        bits::bit32(contribution(meta[c], octs(c)), k),
        forall|d: int|
            0 <= d < 8 && d != c ==> !bits::bit32(#[trigger] contribution(meta[d], octs(d)), k),
    ensures
        hit_bit(meta, octs, hits, 8, k) <==> hits[c],
{
    if hits[c] {
        assert(hit_bit(meta, octs, hits, 8, k));
    }
    if hit_bit(meta, octs, hits, 8, k) {
        let d = choose|d: int|
            0 <= d < 8 && #[trigger] hits[d] && bits::bit32(contribution(meta[d], octs(d)), k);
        assert(bits::bit32(contribution(meta[d], octs(d)), k));
    }
}

/// For the octant of a direction, the hit mask does not depend on how it is computed.
pub proof fn law_hit_masks_agree(
    node: CwBvhNode,
    hits: [bool; 8],
    against: [bool; 3],
    oct_inv4: u32,
    by_child: u32,
    packed: u32,
)
    requires
        oct_inv4 == octant(against) * 0x01010101,
        forall|k: u32|
            k < 32 ==> (#[trigger] bits::bit32(by_child, k) <==> hit_bit(
                node.child_meta@,
                |c: int| oct_inv4 as u8,
                hits@,
                8,
                k,
            )),
        forall|k: u32|
            k < 32 ==> (#[trigger] bits::bit32(packed, k) <==> hit_bit(
                node.child_meta@,
                |c: int| oct_byte(oct_inv4, c),
                hits@,
                8,
                k,
            )),
    ensures
        by_child == packed,
{
    let one = |c: int| oct_inv4 as u8;
    let each = |c: int| oct_byte(oct_inv4, c);
    assert forall|c: int| 0 <= c < 8 implies #[trigger] each(c) == one(c) by {
        lemma_pow256();
        assert(oct_inv4 as u8 == oct_inv4 % 256) by (bit_vector);
        assert(c % 4 == 0 || c % 4 == 1 || c % 4 == 2 || c % 4 == 3);
    }
    assert forall|k: u32| k < 32 implies (#[trigger] bits::bit32(by_child, k) <==> bits::bit32(
        packed,
        k,
    )) by {
        assert(bits::bit32(packed, k) <==> hit_bit(node.child_meta@, each, hits@, 8, k));
        assert(bits::bit32(by_child, k) <==> hit_bit(node.child_meta@, one, hits@, 8, k));
        if hit_bit(node.child_meta@, one, hits@, 8, k) {
            let c = choose|c: int|
                0 <= c < 8 && #[trigger] hits@[c] && bits::bit32(
                    contribution(node.child_meta@[c], one(c)),
                    k,
                );
            assert(each(c) == one(c));
        }
        if hit_bit(node.child_meta@, each, hits@, 8, k) {
            let c = choose|c: int|
                0 <= c < 8 && #[trigger] hits@[c] && bits::bit32(
                    contribution(node.child_meta@[c], each(c)),
                    k,
                );
            assert(each(c) == one(c));
        }
    }
    bits::lemma_bit32_same(by_child, packed);
}

/// The query with a point and the query with a box give one mask where they have the same answers
/// for the children.
pub proof fn law_point_and_box_masks_agree(
    node: CwBvhNode,
    hits: [bool; 8],
    oct_inv4: u32,
    by_point: u32,
    by_box: u32,
)
    requires
        forall|k: u32|
            k < 32 ==> (#[trigger] bits::bit32(by_point, k) <==> hit_bit(
                node.child_meta@,
                |c: int| oct_byte(oct_inv4, c),
                hits@,
                8,
                k,
            )),
        forall|k: u32|
            k < 32 ==> (#[trigger] bits::bit32(by_box, k) <==> hit_bit(
                node.child_meta@,
                |c: int| oct_byte(oct_inv4, c),
                hits@,
                8,
                k,
            )),
    ensures
        by_point == by_box,
{
    let each = |c: int| oct_byte(oct_inv4, c);
    assert forall|k: u32| k < 32 implies (#[trigger] bits::bit32(by_point, k) <==> bits::bit32(
        by_box,
        k,
    )) by {
        assert(bits::bit32(by_point, k) <==> hit_bit(node.child_meta@, each, hits@, 8, k));
        assert(bits::bit32(by_box, k) <==> hit_bit(node.child_meta@, each, hits@, 8, k));
    }
    bits::lemma_bit32_same(by_point, by_box);
}

} // verus!
