//! Clip rectangles in points, and the scissor boxes in pixels they become.

use crate::float32;
use crate::rounding;
use vstd::prelude::*;

verus! {

/// A position in points. The coordinates are the bit patterns of `f32`s.
#[derive(Clone, Copy, Debug, PartialEq, Eq)]
pub struct Pos2 {
    pub x: u32,
    pub y: u32,
}

/// A rectangle in points.
#[derive(Clone, Copy, Debug, PartialEq, Eq)]
pub struct Rect {
    pub min: Pos2,
    pub max: Pos2,
}

/// What the window tells of itself.
#[derive(Clone, Copy, Debug, PartialEq, Eq)]
pub struct EguiContext {
    /// The number of pixels in a point, as the bit pattern of an `f32`.
    pub scale_factor: u32,
    pub physical_width: u32,
    pub physical_height: u32,
}

/// The box of pixels that a draw call may touch.
#[derive(Clone, Copy, Debug, PartialEq, Eq)]
pub struct Scissor {
    pub origin: [i32; 2],
    pub dimensions: [u32; 2],
}

/// Orders the patterns as the numbers they stand for; the two zeros are equal.
pub open spec fn order_of(word: u32) -> int {
    if float32::is_negative(word) {
        -(float32::code_of(word) as int)
    } else {
        float32::code_of(word) as int
    }
}

/// `x`, or the end of the range that it lies beyond.
pub open spec fn clamped(x: int, low: int, high: int) -> int {
    if x <= low {
        low
    } else if high <= x {
        high
    } else {
        x
    }
}

/// `x`, or the limit if that is smaller.
pub open spec fn at_most(x: nat, limit: nat) -> nat {
    if x < limit {
        x
    } else {
        limit
    }
}

/// The last edge of a window side of `size` pixels.
pub open spec fn edge(size: u32) -> nat {
    float32::ratio(size as nat, 1)
}

/// Where a side that starts at `min` starts inside the window.
pub open spec fn clip_start(min: u32, scale: u32, size: u32) -> nat {
    clamped(order_of(float32::product(min, scale)), 0, edge(size) as int) as nat
}

/// Where a side from `min` to `max` ends inside the window, not before its start.
pub open spec fn clip_end(min: u32, max: u32, scale: u32, size: u32) -> nat {
    clamped(
        order_of(float32::product(max, scale)),
        clip_start(min, scale, size) as int,
        edge(size) as int,
    ) as nat
}

/// The first pixel of a clipped side. A side without a start begins at zero.
pub open spec fn clip_origin(min: u32, scale: u32, size: u32) -> nat {
    if float32::is_nan(float32::product(min, scale)) {
        0
    } else {
        at_most(float32::rounded(clip_start(min, scale, size)), i32::MAX as nat)
    }
}

/// The number of pixels of a clipped side: the whole part of what lies between
/// its start and its rounded end. A side without a start or an end has none.
pub open spec fn clip_length(min: u32, max: u32, scale: u32, size: u32) -> nat {
    if float32::is_nan(float32::product(min, scale)) || float32::is_nan(
        float32::product(max, scale),
    ) {
        0
    } else {
        at_most(
            float32::truncated(
                float32::excess(
                    float32::rounded(clip_end(min, max, scale, size)),
                    clip_start(min, scale, size),
                ),
            ),
            u32::MAX as nat,
        )
    }
}

/// The scissor box of a clip rectangle.
pub open spec fn rect_scissor(context: EguiContext, rect: Rect) -> Scissor {
    let scale = context.scale_factor;
    let width = context.physical_width;
    let height = context.physical_height;
    Scissor {
        origin: [
            clip_origin(rect.min.x, scale, width) as i32,
            clip_origin(rect.min.y, scale, height) as i32,
        ],
        dimensions: [
            clip_length(rect.min.x, rect.max.x, scale, width) as u32,
            clip_length(rect.min.y, rect.max.y, scale, height) as u32,
        ],
    }
}

/// `egui::math::clamp` on whole numbers: the start of the range if `x` is not
/// above it, the end of the range if `x` is not below it, otherwise `x`. It
/// asserts that the range is not reversed.
#[verifier::external_body]
fn clamp_order(x: i64, low: i64, high: i64) -> (result: i64)
    requires
        low <= high,
    ensures
        result == clamped(x as int, low as int, high as int),
{
    egui::math::clamp(x, low..=high)
}

/// Orders the patterns as the numbers they stand for.
fn order(word: u32) -> (key: i64)
    ensures
        key == order_of(word),
{
    let code = word % 0x8000_0000;
    if word >= 0x8000_0000 {
        -(code as i64)
    } else {
        code as i64
    }
}

/// The first pixel and the number of pixels of a side from `min` to `max`.
pub fn clip_side(min: u32, max: u32, scale: u32, size: u32) -> (side: (i32, u32))
    ensures
        side.0 == clip_origin(min, scale, size),
        side.1 == clip_length(min, max, scale, size),
{
    let first = float32::multiply(min, scale);
    let last = float32::multiply(max, scale);
    if first % 0x8000_0000 > rounding::INFINITY {
        return (0, 0);
    }
    let limit = float32::ratio_code(size, 1);
    proof {
        lemma_side_bound(size, limit);
    }
    let start = clamp_order(order(first), 0, limit as i64) as u32;
    let begin = float32::round_code(start);
    let origin = if begin < 0x7fff_ffff {
        begin as i32
    } else {
        0x7fff_ffff
    };
    if last % 0x8000_0000 > rounding::INFINITY {
        return (origin, 0);
    }
    let end = clamp_order(order(last), start as i64, limit as i64) as u32;
    let length = float32::truncate_code(float32::excess_code(float32::round_code(end), start));
    if length < 0xffff_ffff {
        (origin, length as u32)
    } else {
        (origin, 0xffff_ffff)
    }
}

/// No window edge lies beyond 2^32.
proof fn lemma_side_bound(size: u32, code: u32)
    requires
        rounding::rounds_to(size as nat * float32::one(), 1, code as nat),
    ensures
        code <= float32::TWO_TO_32,
{
    vstd::arithmetic::mul::lemma_mul_inequality(size as int, 0x1_0000_0000, float32::one() as int);
    float32::lemma_nearest_bound(size as nat * float32::one(), code as nat);
}

} // verus!
