//! The integer part of the image effects.

use crate::math::UVec2;
use vstd::prelude::*;

verus! {

/// How many sixteenths the threshold of a pixel is, in a pattern of four by four pixels: the bits
/// of where the coordinates differ and of the row, the lowest first.
pub open spec fn threshold(x: int, y: int) -> int {
    8 * ((x + y) % 2) + 4 * (y % 2) + 2 * ((x / 2 + y / 2) % 2) + (y / 2) % 2
}

/// How many sixteenths the threshold of a pixel is.
pub fn bayer4(pixel: UVec2) -> (r: u32)
    ensures
        r == threshold(pixel.x as int % 4, pixel.y as int % 4),
        r < 16,
{
    proof {
        crate::dense::layout::lemma_low_two_bits(pixel.x);
        crate::dense::layout::lemma_low_two_bits(pixel.y);
    }
    let x: u32 = pixel.x & 3;
    let y: u32 = pixel.y & 3;
    let index: u32 = x + y * 4;
    if index == 0 {
        0
    } else if index == 1 {
        8
    } else if index == 2 {
        2
    } else if index == 3 {
        10
    } else if index == 4 {
        12
    } else if index == 5 {
        4
    } else if index == 6 {
        14
    } else if index == 7 {
        6
    } else if index == 8 {
        3
    } else if index == 9 {
        11
    } else if index == 10 {
        1
    } else if index == 11 {
        9
    } else if index == 12 {
        15
    } else if index == 13 {
        7
    } else if index == 14 {
        13
    } else {
        5
    }
}

/// No two pixels of the pattern have the same threshold.
pub proof fn law_thresholds_differ(ax: int, ay: int, bx: int, by: int)
    requires
        0 <= ax < 4,
        0 <= ay < 4,
        0 <= bx < 4,
        0 <= by < 4,
        threshold(ax, ay) == threshold(bx, by),
    ensures
        ax == bx,
        ay == by,
{
}

/// The pattern is made of four patterns of two by two pixels: each is the first with a little more,
/// in the order in which the pixels of the first come.
pub proof fn law_thresholds_nest(x: int, y: int)
    requires
        0 <= x < 2,
        0 <= y < 2,
    ensures
        threshold(0, 0) == 0,
        threshold(1, 1) == 4,
        threshold(1, 0) == 8,
        threshold(0, 1) == 12,
        threshold(x + 2, y + 2) == threshold(x, y) + 1,
        threshold(x + 2, y) == threshold(x, y) + 2,
        threshold(x, y + 2) == threshold(x, y) + 3,
{
}

proof fn lemma_corner_bits(id: u32)
    by (bit_vector)
    ensures
        (id << 1) & 2 == 2 * (id % 2),
        id & 2 == 2 * ((id / 2) % 2),
{
}

/// The corner of a triangle that covers the whole image, in twice the width and height of it.
pub fn screen_triangle_corner(vertex_index: u32, base_vertex: u32) -> (r: UVec2)
    ensures
        ({
            let id = (vertex_index - base_vertex) % 0x1_0000_0000;
            &&& r.x == 2 * (id % 2)
            &&& r.y == 2 * ((id / 2) % 2)
        }),
{
    let vertex_id: u32 = vertex_index.wrapping_sub(base_vertex);
    proof {
        lemma_corner_bits(vertex_id);
    }
    UVec2 { x: (vertex_id << 1) & 2, y: vertex_id & 2 }
}

} // verus!
