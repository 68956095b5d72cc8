//! How a dense model is laid out: blocks of voxels, voxels inside a block, material references.

use vstd::prelude::*;

verus! {

/// The largest extent of a model along one axis, in voxels.
pub const MODEL_SIZE: u32 = 256;

/// The extent of a block along one axis, in voxels.
pub const BLOCK_SIZE: u32 = 4;

/// The largest extent of a model along one axis, in blocks.
pub const BLOCK_AXIS: u32 = 64;

/// The number of voxels in a block.
pub const VOXELS_PER_BLOCK: usize = 64;

/// The number of bytes of a material page: one material for each voxel of a block.
pub const MATERIAL_PAGE_SIZE: usize = 64;

/// The number of material pages that a new material table has room for.
pub const INITIAL_MATERIAL_PAGE_CAPACITY: usize = 16;

/// The material reference of a block without voxels.
pub const EMPTY_MATERIAL_REF: u32 = 0xffff_ffff;

/// The bit that marks a material reference as the index of a page.
pub const MATERIAL_PAGE_FLAG: u32 = 0x8000_0000;

/// The bits of a material reference that hold the index of a page.
pub const MATERIAL_PAGE_MASK: u32 = 0x7fff_ffff;

/// Where a voxel is stored: the block it lies in, and its bit in that block's occupancy word.
#[derive(Clone, Copy, Debug, PartialEq, Eq, Structural)]
pub struct VoxelIndex {
    pub block_index: usize,
    pub local_index: u32,
}

/// Whether every axis of `size` is one that a model may have.
pub open spec fn valid_size(size: [u32; 3]) -> bool {
    &&& 0 < size@[0] <= MODEL_SIZE
    &&& 0 < size@[1] <= MODEL_SIZE
    &&& 0 < size@[2] <= MODEL_SIZE
}

/// Whether `coords` lie inside a model of the given size.
pub open spec fn in_bounds(coords: [u32; 3], size: [u32; 3]) -> bool {
    &&& coords@[0] < size@[0]
    &&& coords@[1] < size@[1]
    &&& coords@[2] < size@[2]
}

/// The number of blocks that cover `n` voxels along one axis.
pub open spec fn axis_blocks(n: u32) -> int {
    (n + 3) / 4
}

/// The number of blocks of a model.
pub open spec fn block_count_spec(size: [u32; 3]) -> int {
    axis_blocks(size@[0]) * axis_blocks(size@[1]) * axis_blocks(size@[2])
}

/// The position of a block in a model whose extents along the first two axes are `ex` and `ey`.
pub open spec fn linear_index(x: int, y: int, z: int, ex: int, ey: int) -> int {
    x + y * ex + z * ex * ey
}

/// The block that holds the voxel at `coords`.
pub open spec fn block_of(coords: [u32; 3], size: [u32; 3]) -> int {
    linear_index(
        coords@[0] as int / 4,
        coords@[1] as int / 4,
        coords@[2] as int / 4,
        axis_blocks(size@[0]),
        axis_blocks(size@[1]),
    )
}

/// The bit of the voxel at `coords` in the occupancy word of its block.
pub open spec fn local_of(coords: [u32; 3]) -> int {
    coords@[0] as int % 4 + (coords@[1] as int % 4) * 4 + (coords@[2] as int % 4) * 16
}

/// Whether a material reference is the index of a page.
pub open spec fn page_ref(material_ref: u32) -> bool {
    MATERIAL_PAGE_FLAG <= material_ref < EMPTY_MATERIAL_REF
}

/// Whether a material reference is one material for the whole block.
pub open spec fn uniform_ref(material_ref: u32) -> bool {
    material_ref < MATERIAL_PAGE_FLAG
}

/// The page that a page reference speaks of.
pub open spec fn page_of(material_ref: u32) -> int {
    material_ref - MATERIAL_PAGE_FLAG
}

/// The material that a uniform reference speaks of: its lowest byte.
pub open spec fn uniform_of(material_ref: u32) -> u8 {
    (material_ref % 256) as u8
}

/// The smallest power of two that is at least `n`.
pub open spec fn power_of_two_from(p: nat, n: nat) -> nat
    decreases (if p < n { n - p } else { 0 }),
{
    if p >= n || p == 0 {
        p
    } else {
        power_of_two_from(2 * p, n)
    }
}

/// The number of blocks along one axis never exceeds the largest number of blocks.
proof fn lemma_axis_blocks(n: u32)
    requires
        0 < n <= MODEL_SIZE,
    ensures
        1 <= axis_blocks(n) <= BLOCK_AXIS,
{
}

proof fn lemma_product3(a: int, b: int, c: int, m: int)
    by (nonlinear_arith)
    requires
        0 <= a <= m,
        0 <= b <= m,
        0 <= c <= m,
    ensures
        0 <= a * b <= m * m,
        0 <= a * b * c <= m * m * m,
{
}

/// The blocks of a model can be counted in 32 bits, and there is at least one.
pub proof fn lemma_block_count_bound(size: [u32; 3])
    requires
        valid_size(size),
    ensures
        1 <= block_count_spec(size) <= 262144,
        1 <= axis_blocks(size@[0]) * axis_blocks(size@[1]) <= 4096,
{
    let a = axis_blocks(size@[0]);
    let b = axis_blocks(size@[1]);
    let c = axis_blocks(size@[2]);
    lemma_axis_blocks(size@[0]);
    lemma_axis_blocks(size@[1]);
    lemma_axis_blocks(size@[2]);
    lemma_product3(a, b, c, 64);
    assert(1 <= a * b && 1 <= a * b * c) by (nonlinear_arith)
        requires
            1 <= a,
            1 <= b,
            1 <= c,
    ;
}

/// A block inside the extents has a position below the number of blocks.
pub proof fn lemma_linear_bound(x: int, y: int, z: int, ex: int, ey: int, ez: int)
    requires
        0 <= x < ex,
        0 <= y < ey,
        0 <= z < ez,
    ensures
        0 <= linear_index(x, y, z, ex, ey) < ex * ey * ez,
        0 <= y * ex < ex * ey,
        0 <= z * ex * ey,
        0 <= z * ex,
{
    assert(0 <= y * ex && y * ex + ex <= ex * ey) by (nonlinear_arith)
        requires
            0 <= x < ex,
            0 <= y < ey,
    ;
    assert(0 <= z * ex * ey && z * ex * ey + ex * ey <= ex * ey * ez && 0 <= z * ex) by (nonlinear_arith)
        requires
            0 < ex,
            0 < ey,
            0 <= z < ez,
    ;
}

/// The coordinates of a block can be recovered from its position.
pub proof fn lemma_linear_inverse(x: int, y: int, z: int, ex: int, ey: int)
    requires
        0 <= x < ex,
        0 <= y < ey,
        0 <= z,
    ensures
        linear_index(x, y, z, ex, ey) % ex == x,
        (linear_index(x, y, z, ex, ey) / ex) % ey == y,
        (linear_index(x, y, z, ex, ey) / ex) / ey == z,
{
    let i = linear_index(x, y, z, ex, ey);
    let q = y + z * ey;
    assert(i == q * ex + x) by (nonlinear_arith)
        requires
            i == x + y * ex + z * ex * ey,
            q == y + z * ey,
    ;
    vstd::arithmetic::div_mod::lemma_fundamental_div_mod_converse(i, ex, q, x);
    vstd::arithmetic::div_mod::lemma_fundamental_div_mod_converse(q, ey, z, y);
}

/// A position below the number of blocks is the position of the block with these coordinates.
pub proof fn lemma_linear_cover(i: int, ex: int, ey: int, ez: int)
    requires
        0 < ex,
        0 < ey,
        0 < ez,
        0 <= i < ex * ey * ez,
    ensures
        0 <= i % ex < ex,
        0 <= (i / ex) % ey < ey,
        0 <= (i / ex) / ey < ez,
        linear_index(i % ex, (i / ex) % ey, (i / ex) / ey, ex, ey) == i,
{
    let q = i / ex;
    vstd::arithmetic::div_mod::lemma_fundamental_div_mod(i, ex);
    vstd::arithmetic::div_mod::lemma_fundamental_div_mod(q, ey);
    let x = i % ex;
    let y = q % ey;
    let z = q / ey;
    assert(0 <= q < ey * ez) by (nonlinear_arith)
        requires
            i == ex * q + x,
            0 <= x < ex,
            0 <= i < ex * ey * ez,
            0 < ex,
    ;
    assert(0 <= z < ez) by (nonlinear_arith)
        requires
            q == ey * z + y,
            0 <= y < ey,
            0 <= q < ey * ez,
            0 < ey,
    ;
    assert(x + y * ex + z * ex * ey == i) by (nonlinear_arith)
        requires
            i == ex * q + x,
            q == ey * z + y,
    ;
}

/// Voxels with the same block and the same bit are the same voxel.
pub proof fn lemma_voxel_unique(a: [u32; 3], b: [u32; 3], size: [u32; 3])
    requires
        in_bounds(a, size),
        in_bounds(b, size),
        block_of(a, size) == block_of(b, size),
        local_of(a) == local_of(b),
    ensures
        a == b,
{
    let ex = axis_blocks(size@[0]);
    let ey = axis_blocks(size@[1]);
    lemma_linear_inverse(a@[0] as int / 4, a@[1] as int / 4, a@[2] as int / 4, ex, ey);
    lemma_linear_inverse(b@[0] as int / 4, b@[1] as int / 4, b@[2] as int / 4, ex, ey);
    assert(a =~= b);
}

/// The block of a voxel in bounds is one of the blocks of the model.
pub proof fn lemma_block_of_bound(coords: [u32; 3], size: [u32; 3])
    requires
        in_bounds(coords, size),
    ensures
        0 <= block_of(coords, size) < block_count_spec(size),
        0 <= local_of(coords) < 64,
{
    lemma_linear_bound(
        coords@[0] as int / 4,
        coords@[1] as int / 4,
        coords@[2] as int / 4,
        axis_blocks(size@[0]),
        axis_blocks(size@[1]),
        axis_blocks(size@[2]),
    );
}

proof fn lemma_local_bits(x: u32, y: u32, z: u32)
    by (bit_vector)
    requires
        x < 4,
        y < 4,
        z < 4,
    ensures
        (x | (y << 2) | (z << 4)) == x + y * 4 + z * 16,
{
}

pub proof fn lemma_low_two_bits(x: u32)
    by (bit_vector)
    ensures
        x & 3 == x % 4,
{
}

pub proof fn lemma_flag_bits(r: u32)
    by (bit_vector)
    ensures
        (r & 0x8000_0000 != 0) <==> r >= 0x8000_0000,
        r >= 0x8000_0000 ==> r & 0x7fff_ffff == r - 0x8000_0000,
        r < 0x8000_0000 ==> r & 0x7fff_ffff == r,
        r < 0x8000_0000 ==> (0x8000_0000u32 | r) == 0x8000_0000 + r,
{
}

pub proof fn lemma_low_byte(r: u32)
    by (bit_vector)
    ensures
        r as u8 == r % 256,
        r & 255 == r % 256,
{
}

/// Splitting a bit of an occupancy word into coordinates inside the block.
pub proof fn lemma_split_local(bit: u32)
    by (bit_vector)
    requires
        bit < 64,
    ensures
        bit & 3 == bit % 4,
        (bit >> 2) & 3 == (bit / 4) % 4,
        (bit >> 4) & 3 == bit / 16,
{
}

/// The number of blocks that cover `n` voxels along one axis.
fn div_ceil_block(n: u32) -> (r: u32)
    ensures
        r == axis_blocks(n),
{
    if n % BLOCK_SIZE == 0 {
        n / BLOCK_SIZE
    } else {
        n / BLOCK_SIZE + 1
    }
}

/// The extents of a model in blocks.
pub fn block_extent(size: [u32; 3]) -> (r: [u32; 3])
    ensures
        r@[0] == axis_blocks(size@[0]),
        r@[1] == axis_blocks(size@[1]),
        r@[2] == axis_blocks(size@[2]),
{
    [div_ceil_block(size[0]), div_ceil_block(size[1]), div_ceil_block(size[2])]
}

/// The number of blocks of a model.
pub fn block_count(size: [u32; 3]) -> (r: usize)
    requires
        valid_size(size),
    ensures
        r == block_count_spec(size),
{
    let extent: [u32; 3] = block_extent(size);
    proof {
        lemma_block_count_bound(size);
    }
    (extent[0] * extent[1] * extent[2]) as usize
}

/// The number of bytes of the occupancy words of a model.
pub fn occupancy_bytes(size: [u32; 3]) -> (r: usize)
    requires
        valid_size(size),
    ensures
        r == block_count_spec(size) * 8,
{
    proof {
        lemma_block_count_bound(size);
    }
    block_count(size) * 8
}

/// The number of bytes of the material references of a model.
pub fn material_refs_bytes(size: [u32; 3]) -> (r: usize)
    requires
        valid_size(size),
    ensures
        r == block_count_spec(size) * 4,
{
    proof {
        lemma_block_count_bound(size);
    }
    block_count(size) * 4
}

/// The number of bytes of `page_count` material pages.
pub fn material_pages_bytes(page_count: usize) -> (r: usize)
    requires
        page_count * 64 <= usize::MAX,
    ensures
        r == page_count * 64,
{
    page_count * MATERIAL_PAGE_SIZE
}

/// The position of a block, which must lie inside the model.
pub fn block_index(block: [u32; 3], size: [u32; 3]) -> (r: usize)
    requires
        valid_size(size),
        block@[0] < axis_blocks(size@[0]),
        block@[1] < axis_blocks(size@[1]),
        block@[2] < axis_blocks(size@[2]),
    ensures
        r == linear_index(
            block@[0] as int,
            block@[1] as int,
            block@[2] as int,
            axis_blocks(size@[0]),
            axis_blocks(size@[1]),
        ),
        r < block_count_spec(size),
{
    let extent: [u32; 3] = block_extent(size);
    proof {
        lemma_block_count_bound(size);
        lemma_linear_bound(
            block@[0] as int,
            block@[1] as int,
            block@[2] as int,
            extent@[0] as int,
            extent@[1] as int,
            extent@[2] as int,
        );
        assert(block@[2] * extent@[0] <= 4096) by (nonlinear_arith)
            requires
                0 <= block@[2] <= 64,
                0 <= extent@[0] <= 64,
        ;
    }
    (block[0] + block[1] * extent[0] + block[2] * extent[0] * extent[1]) as usize
}

/// The bit of a voxel inside its block.
pub fn local_index(local: [u32; 3]) -> (r: u32)
    requires
        local@[0] < BLOCK_SIZE,
        local@[1] < BLOCK_SIZE,
        local@[2] < BLOCK_SIZE,
    ensures
        r == local@[0] + local@[1] * 4 + local@[2] * 16,
        r < 64,
{
    proof {
        lemma_local_bits(local@[0], local@[1], local@[2]);
    }
    local[0] | (local[1] << 2) | (local[2] << 4)
}

/// Where the voxel at `coords` is stored.
pub fn voxel_index(coords: [u32; 3], size: [u32; 3]) -> (r: VoxelIndex)
    requires
        valid_size(size),
        in_bounds(coords, size),
    ensures
        r.block_index == block_of(coords, size),
        r.local_index == local_of(coords),
        r.block_index < block_count_spec(size),
        r.local_index < 64,
{
    let block: [u32; 3] = [coords[0] / BLOCK_SIZE, coords[1] / BLOCK_SIZE, coords[2] / BLOCK_SIZE];
    let local: [u32; 3] = [
        coords[0] & (BLOCK_SIZE - 1),
        coords[1] & (BLOCK_SIZE - 1),
        coords[2] & (BLOCK_SIZE - 1),
    ];
    proof {
        lemma_low_two_bits(coords@[0]);
        lemma_low_two_bits(coords@[1]);
        lemma_low_two_bits(coords@[2]);
    }
    VoxelIndex { block_index: block_index(block, size), local_index: local_index(local) }
}

/// Whether a material reference is the index of a page.
pub fn is_page_material_ref(material_ref: u32) -> (r: bool)
    ensures
        r == page_ref(material_ref),
{
    proof {
        lemma_flag_bits(material_ref);
    }
    material_ref != EMPTY_MATERIAL_REF && (material_ref & MATERIAL_PAGE_FLAG) != 0
}

/// Whether a material reference is one material for the whole block.
pub fn is_uniform_material_ref(material_ref: u32) -> (r: bool)
    ensures
        r == uniform_ref(material_ref),
{
    proof {
        lemma_flag_bits(material_ref);
    }
    material_ref != EMPTY_MATERIAL_REF && (material_ref & MATERIAL_PAGE_FLAG) == 0
}

/// The page that a page reference speaks of.
pub fn material_page_index(material_ref: u32) -> (r: usize)
    requires
        page_ref(material_ref),
    ensures
        r == page_of(material_ref),
{
    proof {
        lemma_flag_bits(material_ref);
    }
    (material_ref & MATERIAL_PAGE_MASK) as usize
}

/// The reference that speaks of the given page.
pub fn page_material_ref(page_index: usize) -> (r: u32)
    requires
        page_index <= MATERIAL_PAGE_MASK,
    ensures
        r == MATERIAL_PAGE_FLAG + page_index,
        page_index < MATERIAL_PAGE_MASK ==> page_ref(r) && page_of(r) == page_index,
        page_index == MATERIAL_PAGE_MASK ==> r == EMPTY_MATERIAL_REF,
{
    let index: u32 = page_index as u32;
    proof {
        lemma_flag_bits(index);
    }
    MATERIAL_PAGE_FLAG | index
}

/// The material that a uniform reference speaks of.
pub fn uniform_material(material_ref: u32) -> (r: u8)
    ensures
        r == uniform_of(material_ref),
{
    proof {
        lemma_low_byte(material_ref);
    }
    material_ref as u8
}

pub proof fn lemma_power_of_two_from(p: nat, n: nat)
    requires
        0 < p,
    ensures
        n <= power_of_two_from(p, n),
        p <= power_of_two_from(p, n),
        p < n ==> power_of_two_from(p, n) < 2 * n,
        p >= n ==> power_of_two_from(p, n) == p,
    decreases (if p < n { n - p } else { 0 }),
{
    if p < n {
        lemma_power_of_two_from(2 * p, n);
    }
}

/// The smallest power of two that is at least `n`.
pub fn next_power_of_two(n: usize) -> (r: usize)
    requires
        n <= usize::MAX / 2,
    ensures
        r == power_of_two_from(1, n as nat),
        n <= r,
        r < 2 * n || r == 1,
{
    let mut p: usize = 1;
    proof {
        lemma_power_of_two_from(1, n as nat);
    }
    while p < n
        invariant
            0 < p,
            n <= usize::MAX / 2,
            power_of_two_from(p as nat, n as nat) == power_of_two_from(1, n as nat),
            p < 2 * n || p == 1,
        decreases (if p < n { n - p } else { 0 }),
    {
        p = p * 2;
    }
    p
}

/// Blocks have four voxels along each axis. The blocks of a model cover it, with none to spare, and
/// the first axis comes first among them and among the voxels of a block.
pub proof fn law_voxel_address(coords: [u32; 3], size: [u32; 3])
    ensures
        ({
            let across = axis_blocks(size@[0]);
            let up = axis_blocks(size@[1]);
            let x = coords@[0] as int;
            let y = coords@[1] as int;
            let z = coords@[2] as int;
            &&& size@[0] <= 4 * across < size@[0] + 4
            &&& size@[1] <= 4 * up < size@[1] + 4
            &&& block_of(coords, size) == x / 4 + y / 4 * across + z / 4 * across * up
            &&& local_of(coords) == x % 4 + y % 4 * 4 + z % 4 * 16
            &&& 0 <= local_of(coords) < 64
        }),
{
}

/// A material reference is one of three: that of a block without voxels, the index of a page behind
/// a flag, or a material for the whole block in its lowest byte.
pub proof fn law_material_references(material_ref: u32)
    ensures
        page_ref(material_ref) <==> 0x8000_0000 <= material_ref < 0xffff_ffff,
        uniform_ref(material_ref) <==> material_ref < 0x8000_0000,
        page_ref(material_ref) ==> page_of(material_ref) + 0x8000_0000 == material_ref,
        uniform_of(material_ref) == material_ref % 256,
{
}

/// What is reserved is the smallest power of two that is large enough.
pub proof fn law_power_of_two(n: nat) -> (k: nat)
    ensures
        power_of_two_from(1, n) == vstd::arithmetic::power2::pow2(k),
        n <= vstd::arithmetic::power2::pow2(k),
        k > 0 ==> vstd::arithmetic::power2::pow2((k - 1) as nat) < n,
{
    vstd::arithmetic::power2::lemma2_to64();
    lemma_power_of_two_steps(0, n)
}

proof fn lemma_power_of_two_steps(j: nat, n: nat) -> (k: nat)
    requires
        j > 0 ==> vstd::arithmetic::power2::pow2((j - 1) as nat) < n,
    ensures
        power_of_two_from(vstd::arithmetic::power2::pow2(j), n)
            == vstd::arithmetic::power2::pow2(k),
        n <= vstd::arithmetic::power2::pow2(k),
        k > 0 ==> vstd::arithmetic::power2::pow2((k - 1) as nat) < n,
    decreases
            (if vstd::arithmetic::power2::pow2(j) < n {
                n - vstd::arithmetic::power2::pow2(j)
            } else {
                0
            }),
{
    vstd::arithmetic::power2::lemma_pow2_pos(j);
    if vstd::arithmetic::power2::pow2(j) >= n {
        j
    } else {
        vstd::arithmetic::power2::lemma_pow2_unfold(j + 1);
        lemma_power_of_two_steps(j + 1, n)
    }
}

/// A model may have from one to 256 voxels along each axis.
pub proof fn law_valid_size(size: [u32; 3])
    ensures
        valid_size(size) <==> {
            &&& 1 <= size@[0] <= 256
            &&& 1 <= size@[1] <= 256
            &&& 1 <= size@[2] <= 256
        },
{
}

} // verus!
