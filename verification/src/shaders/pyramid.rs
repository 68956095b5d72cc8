//! The levels of the depth pyramid: where each stands in the buffer, and which depths are read and
//! written.

use crate::math;
use crate::math::UVec2;
use vstd::prelude::*;

verus! {

/// The extent of level `level` along an axis of which the base has `base` depths: half of that of
/// the level before, and at least one.
pub open spec fn level_axis(base: u32, level: nat) -> u32
    decreases level,
{
    if level == 0 {
        base
    } else {
        math::max_of(level_axis(base, (level - 1) as nat) / 2, 1)
    }
}

/// The number of depths of all levels before `level`.
pub open spec fn level_start(width: u32, height: u32, level: nat) -> nat
    decreases level,
{
    if level == 0 {
        0
    } else {
        let before = (level - 1) as nat;
        (level_start(width, height, before) + level_axis(width, before) * level_axis(
            height,
            before,
        )) as nat
    }
}

pub proof fn lemma_level_start_grows(width: u32, height: u32, a: nat, b: nat)
    requires
        a <= b,
    ensures
        level_start(width, height, a) <= level_start(width, height, b),
    decreases b,
{
    if a < b {
        let before = (b - 1) as nat;
        lemma_level_start_grows(width, height, a, before);
        assert(0 <= level_axis(width, before) * level_axis(height, before)) by (nonlinear_arith)
            requires
                0 <= level_axis(width, before),
                0 <= level_axis(height, before),
        ;
    }
}

/// The extent of a level is that of the base shifted, and at least one.
pub proof fn lemma_level_axis_shift(base: u32, level: u32)
    requires
        0 < base,
        level < 32,
    ensures
        level_axis(base, level as nat) == math::max_of(base >> level, 1),
    decreases level,
{
    if level == 0 {
        assert(base >> 0u32 == base) by (bit_vector);
    } else {
        let before = (level - 1) as u32;
        lemma_level_axis_shift(base, before);
        assert((base >> level) == (base >> before) / 2) by (bit_vector)
            requires
                0 < level < 32,
                before == level - 1,
        ;
    }
}

/// The number of depths of all levels before `mip`.
pub fn mip_offset(base_width: u32, base_height: u32, mip: u32) -> (r: u32)
    requires
        level_start(base_width, base_height, mip as nat) <= u32::MAX,
    ensures
        r == level_start(base_width, base_height, mip as nat),
{
    let mut offset: u32 = 0;
    let mut width: u32 = base_width;
    let mut height: u32 = base_height;
    let mut i: u32 = 0;
    while i < mip
        invariant
            i <= mip,
            level_start(base_width, base_height, mip as nat) <= u32::MAX,
            offset == level_start(base_width, base_height, i as nat),
            width == level_axis(base_width, i as nat),
            height == level_axis(base_height, i as nat),
        decreases mip - i,
    {
        proof {
            lemma_level_start_grows(base_width, base_height, (i + 1) as nat, mip as nat);
            lemma_half(width);
            lemma_half(height);
        }
        offset = offset + width * height;
        width = if (width >> 1) >= 1 { width >> 1 } else { 1 };
        height = if (height >> 1) >= 1 { height >> 1 } else { 1 };
        i += 1;
    }
    offset
}

proof fn lemma_half(x: u32)
    by (bit_vector)
    ensures
        x >> 1 == x / 2,
{
}

/// A level of the pyramid: where it starts, and its extent.
#[derive(Clone, Copy, Debug, PartialEq, Eq, Structural)]
pub struct DepthPyramidMip {
    pub offset: u32,
    pub width: u32,
    pub height: u32,
}

/// The sum of two numbers, or the largest number where it is larger.
pub open spec fn capped(x: int) -> u32 {
    if x <= u32::MAX {
        x as u32
    } else {
        u32::MAX
    }
}

/// The number of depths of all levels before `level`, as far as it can be told.
pub open spec fn capped_start(width: u32, height: u32, level: nat) -> u32
    decreases level,
{
    if level == 0 {
        0
    } else {
        let before = (level - 1) as nat;
        capped(
            capped_start(width, height, before) + capped(
                level_axis(width, before) * level_axis(height, before),
            ),
        )
    }
}

fn capped_mul(a: u32, b: u32) -> (r: u32)
    ensures
        r == capped(a * b),
{
    match a.checked_mul(b) {
        Some(product) => product,
        None => u32::MAX,
    }
}

/// Each level divides the base along an axis by a power of two, rounded down, and has at least one
/// depth there.
pub proof fn law_level_axis(base: u32, level: nat)
    requires
        0 < base,
    ensures
        ({
            let part = vstd::arithmetic::power2::pow2(level) as int;
            let axis = level_axis(base, level) as int;
            &&& axis >= 1
            &&& axis > 1 ==> axis * part <= base
            &&& base < (axis + 1) * part
        }),
    decreases level,
{
    vstd::arithmetic::power2::lemma2_to64();
    if level > 0 {
        let before = (level - 1) as nat;
        law_level_axis(base, before);
        vstd::arithmetic::power2::lemma_pow2_unfold(level);
        vstd::arithmetic::power2::lemma_pow2_pos(before);
        let half = vstd::arithmetic::power2::pow2(before) as int;
        let part = vstd::arithmetic::power2::pow2(level) as int;
        let above = level_axis(base, before) as int;
        let axis = level_axis(base, level) as int;
        assert(part == 2 * half);
        assert(base < (axis + 1) * part) by (nonlinear_arith)
            requires
                base < (above + 1) * half,
                above + 1 <= 2 * (axis + 1),
                part == 2 * half,
                half > 0,
        ;
        if axis > 1 {
            assert(axis * part <= base) by (nonlinear_arith)
                requires
                    above * half <= base,
                    2 * axis <= above,
                    part == 2 * half,
                    half > 0,
            ;
        }
    }
}

/// The levels of a pyramid over an image, down to a level of one depth.
pub fn depth_pyramid_mips(extent: UVec2) -> (r: Vec<DepthPyramidMip>)
    ensures
        r@.len() > 0,
        forall|k: int|
            0 <= k < r@.len() ==> {
                &&& (#[trigger] r@[k]).width == level_axis(math::max_of(extent.x, 1), k as nat)
                &&& r@[k].height == level_axis(math::max_of(extent.y, 1), k as nat)
                &&& r@[k].offset == capped_start(
                    math::max_of(extent.x, 1),
                    math::max_of(extent.y, 1),
                    k as nat,
                )
                &&& (r@[k].width == 1 && r@[k].height == 1) == (k == r@.len() - 1)
            },
        extent.x > 0 ==> r@[0].width == extent.x,
        extent.y > 0 ==> r@[0].height == extent.y,
        r@[0].offset == 0,
        forall|k: int|
            0 < k < r@.len() ==> {
                &&& r@[k - 1].width == 1 ==> (#[trigger] r@[k]).width == 1
                &&& r@[k - 1].width > 1 ==> r@[k].width == r@[k - 1].width / 2
                &&& r@[k - 1].height == 1 ==> r@[k].height == 1
                &&& r@[k - 1].height > 1 ==> r@[k].height == r@[k - 1].height / 2
                &&& r@[k - 1].offset + r@[k - 1].width * r@[k - 1].height <= u32::MAX
                    ==> r@[k].offset == r@[k - 1].offset + r@[k - 1].width * r@[k - 1].height
                &&& r@[k - 1].offset + r@[k - 1].width * r@[k - 1].height > u32::MAX
                    ==> r@[k].offset == u32::MAX
            },
{
    let mut mips: Vec<DepthPyramidMip> = Vec::new();
    let base_width: u32 = if extent.x >= 1 { extent.x } else { 1 };
    let base_height: u32 = if extent.y >= 1 { extent.y } else { 1 };
    let mut offset: u32 = 0;
    let mut width: u32 = base_width;
    let mut height: u32 = base_height;
    loop
        invariant
            base_width == math::max_of(extent.x, 1),
            base_height == math::max_of(extent.y, 1),
            width >= 1,
            height >= 1,
            width == level_axis(base_width, mips@.len()),
            height == level_axis(base_height, mips@.len()),
            offset == capped_start(base_width, base_height, mips@.len()),
            forall|k: int|
                0 <= k < mips@.len() ==> {
                    &&& (#[trigger] mips@[k]).width == level_axis(base_width, k as nat)
                    &&& mips@[k].height == level_axis(base_height, k as nat)
                    &&& mips@[k].offset == capped_start(base_width, base_height, k as nat)
                    &&& !(mips@[k].width == 1 && mips@[k].height == 1)
                },
        decreases width + height,
    {
        mips.push(DepthPyramidMip { offset, width, height });
        offset = offset.saturating_add(capped_mul(width, height));
        if width == 1 && height == 1 {
            return mips;
        }
        width = if width / 2 >= 1 { width / 2 } else { 1 };
        height = if height / 2 >= 1 { height / 2 } else { 1 };
    }
}

/// Where levels start is where the shader looks for them, as long as the depths can be counted.
pub proof fn law_level_starts_agree(width: u32, height: u32, level: nat)
    requires
        level_start(width, height, level) <= u32::MAX,
    ensures
        capped_start(width, height, level) == level_start(width, height, level),
    decreases level,
{
    if level > 0 {
        let before = (level - 1) as nat;
        lemma_level_start_grows(width, height, before, level);
        law_level_starts_agree(width, height, before);
    }
}

/// The levels stand one after the other: each starts where the one before ends.
pub proof fn law_levels_are_adjacent(mips: Seq<DepthPyramidMip>, extent: UVec2, k: int)
    requires
        0 <= k,
        k + 1 < mips.len(),
        forall|i: int|
            0 <= i < mips.len() ==> {
                &&& (#[trigger] mips[i]).width == level_axis(math::max_of(extent.x, 1), i as nat)
                &&& mips[i].height == level_axis(math::max_of(extent.y, 1), i as nat)
                &&& mips[i].offset == capped_start(
                    math::max_of(extent.x, 1),
                    math::max_of(extent.y, 1),
                    i as nat,
                )
            },
        level_start(math::max_of(extent.x, 1), math::max_of(extent.y, 1), (k + 1) as nat)
            <= u32::MAX,
    ensures
        mips[k + 1].offset == mips[k].offset + mips[k].width * mips[k].height,
{
    let w = math::max_of(extent.x, 1);
    let h = math::max_of(extent.y, 1);
    lemma_level_start_grows(w, h, k as nat, (k + 1) as nat);
    law_level_starts_agree(w, h, k as nat);
    law_level_starts_agree(w, h, (k + 1) as nat);
}

/// What the shader that fills a level is called with.
#[derive(Clone, Copy, Debug, PartialEq, Eq, Structural)]
pub struct DepthPyramidPushConstants {
    pub pyramid_handle: u32,
    pub src_offset: u32,
    pub dst_offset: u32,
    pub src_width: u32,
    pub src_height: u32,
    pub dst_width: u32,
    pub dst_height: u32,
    pub _pad: u32,
}

/// The depths that one depth of a level is the largest of, and where it goes.
#[derive(Clone, Copy, Debug, PartialEq, Eq)]
pub struct PyramidTexels {
    pub src: [usize; 4],
    pub dst: usize,
}

/// The first of the two columns or rows that are read for column or row `at` of a level.
pub open spec fn first_source(at: u32, extent: u32) -> int {
    if at * 2 < extent - 1 {
        at * 2
    } else {
        extent - 1
    }
}

/// The second of the two columns or rows that are read for column or row `at` of a level.
pub open spec fn second_source(at: u32, extent: u32) -> int {
    if first_source(at, extent) + 1 < extent - 1 {
        first_source(at, extent) + 1
    } else {
        extent - 1
    }
}

/// The place of a depth of a level that starts at `offset`.
pub open spec fn texel(offset: u32, width: u32, x: int, y: int) -> int {
    offset + y * width + x
}

proof fn lemma_texel(offset: u32, width: u32, height: u32, x: int, y: int)
    requires
        0 <= x < width,
        0 <= y < height,
    ensures
        offset <= texel(offset, width, x, y) < offset + width * height,
        0 <= y * width <= width * height,
{
    assert(0 <= y * width && y * width + width <= width * height) by (nonlinear_arith)
        requires
            0 <= y < height,
            0 <= width,
    ;
}

fn source_pair(at: u32, extent: u32) -> (r: (u32, u32))
    requires
        extent > 0,
        at < 0x8000_0000,
    ensures
        r.0 == first_source(at, extent),
        r.1 == second_source(at, extent),
        r.0 < extent,
        r.1 < extent,
{
    let last: u32 = extent - 1;
    let doubled: u32 = at * 2;
    let first: u32 = if doubled < last { doubled } else { last };
    let second: u32 = if first < last && first + 1 < last { first + 1 } else { last };
    (first, second)
}

/// The depths that the depth at column `x` and row `y` of a level is the largest of, and where it
/// goes, where the level has that column and row.
pub fn depth_pyramid_texels(constants: &DepthPyramidPushConstants, x: u32, y: u32) -> (r: Option<
    PyramidTexels,
>)
    requires
        constants.src_width > 0,
        constants.src_height > 0,
        constants.dst_width <= 0x8000_0000,
        constants.dst_height <= 0x8000_0000,
        constants.src_offset + constants.src_width * constants.src_height <= usize::MAX,
        constants.dst_offset + constants.dst_width * constants.dst_height <= usize::MAX,
    ensures
        r is Some <==> x < constants.dst_width && y < constants.dst_height,
        r matches Some(texels) ==> {
            let x0 = first_source(x, constants.src_width);
            let x1 = second_source(x, constants.src_width);
            let y0 = first_source(y, constants.src_height);
            let y1 = second_source(y, constants.src_height);
            &&& texels.src@[0] == texel(constants.src_offset, constants.src_width, x0, y0)
            &&& texels.src@[1] == texel(constants.src_offset, constants.src_width, x1, y0)
            &&& texels.src@[2] == texel(constants.src_offset, constants.src_width, x0, y1)
            &&& texels.src@[3] == texel(constants.src_offset, constants.src_width, x1, y1)
            &&& texels.dst == texel(constants.dst_offset, constants.dst_width, x as int, y as int)
        },
        r is Some && 2 * x + 1 < constants.src_width && 2 * y + 1 < constants.src_height
            ==> {
            let corner = constants.src_offset + 2 * y * constants.src_width + 2 * x;
            &&& r->0.src@[0] == corner
            &&& r->0.src@[1] == corner + 1
            &&& r->0.src@[2] == corner + constants.src_width
            &&& r->0.src@[3] == corner + constants.src_width + 1
        },
{
    if x >= constants.dst_width || y >= constants.dst_height {
        return None;
    }
    let (src_x, src_x1): (u32, u32) = source_pair(x, constants.src_width);
    let (src_y, src_y1): (u32, u32) = source_pair(y, constants.src_height);
    proof {
        lemma_texel(
            constants.src_offset,
            constants.src_width,
            constants.src_height,
            src_x as int,
            src_y as int,
        );
        lemma_texel(
            constants.src_offset,
            constants.src_width,
            constants.src_height,
            src_x1 as int,
            src_y as int,
        );
        lemma_texel(
            constants.src_offset,
            constants.src_width,
            constants.src_height,
            src_x as int,
            src_y1 as int,
        );
        lemma_texel(
            constants.src_offset,
            constants.src_width,
            constants.src_height,
            src_x1 as int,
            src_y1 as int,
        );
        lemma_texel(
            constants.dst_offset,
            constants.dst_width,
            constants.dst_height,
            x as int,
            y as int,
        );
    }
    assert((2 * y + 1) * constants.src_width == 2 * y * constants.src_width + constants.src_width)
        by (nonlinear_arith);
    let src_offset: usize = constants.src_offset as usize;
    let dst_offset: usize = constants.dst_offset as usize;
    let src_width: usize = constants.src_width as usize;
    let dst_width: usize = constants.dst_width as usize;
    Some(
        PyramidTexels {
            src: [
                src_offset + src_y as usize * src_width + src_x as usize,
                src_offset + src_y as usize * src_width + src_x1 as usize,
                src_offset + src_y1 as usize * src_width + src_x as usize,
                src_offset + src_y1 as usize * src_width + src_x1 as usize,
            ],
            dst: dst_offset + y as usize * dst_width + x as usize,
        },
    )
}

/// The two columns or rows that are read for column or row `at` are `2 * at` and the one after it,
/// as far as the source has them, and the last one of the source past that. Each of the first
/// `2 * count` columns or rows is read for exactly one of `count`.
pub proof fn law_sources_pair_up(count: u32, extent: u32, at: u32, source: u32)
    requires
        0 < extent,
        2 * count <= extent,
    ensures
        2 * at < extent ==> first_source(at, extent) == 2 * at,
        2 * at >= extent ==> first_source(at, extent) == extent - 1,
        2 * at + 1 < extent ==> second_source(at, extent) == 2 * at + 1,
        2 * at + 1 >= extent ==> second_source(at, extent) == extent - 1,
        at < count && source < 2 * count ==> {
            (first_source(at, extent) == source || second_source(at, extent) == source) <==> at
                == source / 2
        },
{
}

/// The depths that are read for column `x` and row `y` of a level are, for a source twice as wide
/// and twice as high, those of the two columns from `2 * x` on in the two rows from `2 * y` on. A
/// depth of the source is among them for no other column and row.
pub proof fn law_depth_is_read_once(
    constants: DepthPyramidPushConstants,
    x: u32,
    y: u32,
    texels: PyramidTexels,
    column: u32,
    row: u32,
)
    requires
        constants.src_width == 2 * constants.dst_width,
        constants.src_height == 2 * constants.dst_height,
        x < constants.dst_width,
        y < constants.dst_height,
        column < constants.src_width,
        row < constants.src_height,
        texels.src@[0] == texel(
            constants.src_offset,
            constants.src_width,
            first_source(x, constants.src_width),
            first_source(y, constants.src_height),
        ),
        texels.src@[1] == texel(
            constants.src_offset,
            constants.src_width,
            second_source(x, constants.src_width),
            first_source(y, constants.src_height),
        ),
        texels.src@[2] == texel(
            constants.src_offset,
            constants.src_width,
            first_source(x, constants.src_width),
            second_source(y, constants.src_height),
        ),
        texels.src@[3] == texel(
            constants.src_offset,
            constants.src_width,
            second_source(x, constants.src_width),
            second_source(y, constants.src_height),
        ),
        texels.dst == texel(constants.dst_offset, constants.dst_width, x as int, y as int),
    ensures
        ({
            let width = constants.src_width as int;
            let corner = constants.src_offset + 2 * y * width + 2 * x;
            &&& texels.src@[0] == corner
            &&& texels.src@[1] == corner + 1
            &&& texels.src@[2] == corner + width
            &&& texels.src@[3] == corner + width + 1
        }),
        texels.dst == constants.dst_offset + y * constants.dst_width + x,
        (exists|i: int|
            0 <= i < 4 && #[trigger] texels.src@[i] == constants.src_offset + row
                * constants.src_width + column) <==> x == column / 2 && y == row / 2,
{
    let width = constants.src_width as int;
    let place = constants.src_offset + row * width + column;
    let corner = constants.src_offset + 2 * y * width + 2 * x;
    assert((2 * y + 1) * width == 2 * y * width + width) by (nonlinear_arith);
    lemma_texel(
        constants.src_offset,
        constants.src_width,
        constants.src_height,
        2 * x + 1,
        2 * y + 1,
    );
    if row > 2 * y + 1 {
        assert(row * width >= 2 * y * width + 2 * width) by (nonlinear_arith)
            requires
                row >= 2 * y + 2,
                width >= 0,
        ;
    } else if row < 2 * y {
        assert(row * width + width <= 2 * y * width) by (nonlinear_arith)
            requires
                row + 1 <= 2 * y,
                width >= 0,
        ;
    } else if row == 2 * y + 1 {
        assert(row * width == 2 * y * width + width);
    } else {
        assert(row * width == 2 * y * width);
    }
    if x == column / 2 && y == row / 2 {
        let i = 2 * (row - 2 * y) + (column - 2 * x);
        assert(texels.src@[i] == place);
    }
}

/// What is read for a level lies in the level before it, and what is written lies in the level.
pub proof fn law_texels_in_levels(
    constants: DepthPyramidPushConstants,
    x: u32,
    y: u32,
    texels: PyramidTexels,
)
    requires
        constants.src_width > 0,
        constants.src_height > 0,
        x < constants.dst_width,
        y < constants.dst_height,
        texels.src@[0] == texel(
            constants.src_offset,
            constants.src_width,
            first_source(x, constants.src_width),
            first_source(y, constants.src_height),
        ),
        texels.src@[1] == texel(
            constants.src_offset,
            constants.src_width,
            second_source(x, constants.src_width),
            first_source(y, constants.src_height),
        ),
        texels.src@[2] == texel(
            constants.src_offset,
            constants.src_width,
            first_source(x, constants.src_width),
            second_source(y, constants.src_height),
        ),
        texels.src@[3] == texel(
            constants.src_offset,
            constants.src_width,
            second_source(x, constants.src_width),
            second_source(y, constants.src_height),
        ),
        texels.dst == texel(constants.dst_offset, constants.dst_width, x as int, y as int),
    ensures
        forall|i: int|
            0 <= i < 4 ==> constants.src_offset <= #[trigger] texels.src@[i] < constants.src_offset
                + constants.src_width * constants.src_height,
        constants.dst_offset <= texels.dst < constants.dst_offset + constants.dst_width
            * constants.dst_height,
{
    let w = constants.src_width;
    let h = constants.src_height;
    let x0 = first_source(x, w);
    let x1 = second_source(x, w);
    let y0 = first_source(y, h);
    let y1 = second_source(y, h);
    lemma_texel(constants.src_offset, w, h, x0, y0);
    lemma_texel(constants.src_offset, w, h, x1, y0);
    lemma_texel(constants.src_offset, w, h, x0, y1);
    lemma_texel(constants.src_offset, w, h, x1, y1);
    lemma_texel(
        constants.dst_offset,
        constants.dst_width,
        constants.dst_height,
        x as int,
        y as int,
    );
}

/// The level in which a cluster is looked up, where there is a pyramid: the one that is wished for,
/// or the last.
pub fn occlusion_level(width: u32, height: u32, mip_count: u32, wished: u32) -> (r: Option<
    DepthPyramidMip,
>)
    requires
        mip_count <= 32,
        level_start(width, height, mip_count as nat) <= u32::MAX,
    ensures
        r is Some <==> width > 0 && height > 0 && mip_count > 0,
        r matches Some(level) ==> {
            let mip = math::min_of(wished, (mip_count - 1) as u32);
            &&& level.offset == level_start(width, height, mip as nat)
            &&& level.width == level_axis(width, mip as nat)
            &&& level.height == level_axis(height, mip as nat)
            &&& level.width > 0
            &&& level.height > 0
            &&& level.offset + level.width * level.height <= level_start(
                width,
                height,
                mip_count as nat,
            )
        },
{
    if width == 0 || height == 0 || mip_count == 0 {
        return None;
    }
    let mip: u32 = if wished <= mip_count - 1 { wished } else { mip_count - 1 };
    proof {
        lemma_level_axis_shift(width, mip);
        lemma_level_axis_shift(height, mip);
        lemma_level_start_grows(width, height, mip as nat, mip_count as nat);
        lemma_level_start_grows(width, height, (mip + 1) as nat, mip_count as nat);
    }
    let mip_width: u32 = if (width >> mip) >= 1 { width >> mip } else { 1 };
    let mip_height: u32 = if (height >> mip) >= 1 { height >> mip } else { 1 };
    let offset: u32 = mip_offset(width, height, mip);
    Some(DepthPyramidMip { offset, width: mip_width, height: mip_height })
}

/// The places of the depths at the corners of a rectangle of a level, moved into the level.
pub fn occlusion_taps(level: &DepthPyramidMip, first: UVec2, second: UVec2) -> (r: [usize; 4])
    requires
        level.width > 0,
        level.height > 0,
        level.offset + level.width * level.height <= u32::MAX,
    ensures
        ({
            let x0 = math::min_of(first.x, (level.width - 1) as u32) as int;
            let y0 = math::min_of(first.y, (level.height - 1) as u32) as int;
            let x1 = math::min_of(second.x, (level.width - 1) as u32) as int;
            let y1 = math::min_of(second.y, (level.height - 1) as u32) as int;
            &&& r@[0] == texel(level.offset, level.width, x0, y0)
            &&& r@[1] == texel(level.offset, level.width, x1, y0)
            &&& r@[2] == texel(level.offset, level.width, x0, y1)
            &&& r@[3] == texel(level.offset, level.width, x1, y1)
        }),
        forall|i: int|
            0 <= i < 4 ==> level.offset <= #[trigger] r@[i] < level.offset + level.width
                * level.height,
        first.x < level.width && first.y < level.height ==> r@[0] == level.offset + first.y
            * level.width + first.x,
        second.x < level.width && first.y < level.height ==> r@[1] == level.offset + first.y
            * level.width + second.x,
        first.x < level.width && second.y < level.height ==> r@[2] == level.offset + second.y
            * level.width + first.x,
        second.x < level.width && second.y < level.height ==> r@[3] == level.offset + second.y
            * level.width + second.x,
{
    let max_pixel: UVec2 = UVec2 { x: level.width - 1, y: level.height - 1 };
    let p0: UVec2 = first.min(max_pixel);
    let p1: UVec2 = second.min(max_pixel);
    proof {
        lemma_texel(level.offset, level.width, level.height, p0.x as int, p0.y as int);
        lemma_texel(level.offset, level.width, level.height, p1.x as int, p0.y as int);
        lemma_texel(level.offset, level.width, level.height, p0.x as int, p1.y as int);
        lemma_texel(level.offset, level.width, level.height, p1.x as int, p1.y as int);
    }
    [
        (level.offset + p0.y * level.width + p0.x) as usize,
        (level.offset + p0.y * level.width + p1.x) as usize,
        (level.offset + p1.y * level.width + p0.x) as usize,
        (level.offset + p1.y * level.width + p1.x) as usize,
    ]
}

} // verus!
