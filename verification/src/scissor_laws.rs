//! What scissor boxes are, in terms of the numbers that the corners stand for.

use crate::arithmetic_laws;
use crate::float32;
use crate::laws;
use crate::rounding;
use crate::scissor::{self, EguiContext, Rect};
use vstd::arithmetic::mul::*;
use vstd::arithmetic::power2::*;
use vstd::prelude::*;

verus! {

/// Whether a whole number is a number of single precision.
pub open spec fn is_single(whole: nat) -> bool {
    exists|code: nat|
        code <= 0x7f80_0000 && #[trigger] rounding::units(code) == whole * pow2(149)
}

/// Whether scaling a corner coordinate gives exactly so many pixels.
pub open spec fn scales_to(word: u32, scale: u32, pixels: nat) -> bool {
    &&& word < 0x7f80_0000
    &&& scale < 0x7f80_0000
    &&& rounding::units(word as nat) * rounding::units(scale as nat) == pow2(149) * (pixels * pow2(
        149,
    ))
}

/// Whether a whole number is the closest to a number of units, the larger of
/// two that are equally close.
pub open spec fn is_closest_whole(whole: int, number: int) -> bool {
    &&& 2 * (whole * pow2(149)) <= 2 * number + pow2(149)
    &&& 2 * number < 2 * (whole * pow2(149)) + pow2(149)
}

/// Whether a number of pixels is the whole part of what a number of units
/// rounds to, as far as there are so many pixels.
pub open spec fn is_whole_part(length: u32, number: nat) -> bool {
    exists|code: nat|
        {
            &&& #[trigger] rounding::rounds_to(number, 1, code)
            &&& length * pow2(149) <= rounding::units(code)
            &&& length < u32::MAX ==> rounding::units(code) < (length + 1) * pow2(149)
        }
}

/// A number, or the end of the range that it lies beyond.
pub open spec fn kept_inside(number: int, low: int, high: int) -> int {
    if number < low {
        low
    } else if number > high {
        high
    } else {
        number
    }
}

/// Whether a side of a scissor box is that of a side from one scaled corner to
/// another, in a window side that ends at so many units: it begins at the pixel
/// closest to where the side enters the window, and its length is the whole part
/// of what lies from there to the pixel closest to where the side leaves it.
pub open spec fn is_side_of(first: int, last: int, far: int, origin: i32, length: u32) -> bool {
    let start = kept_inside(first, 0, far);
    let end = kept_inside(last, start, far);
    &&& is_closest_whole(origin as int, start) || (origin == i32::MAX && 2 * (i32::MAX * pow2(149))
        <= 2 * start + pow2(149))
    &&& exists|stop: int|
        {
            &&& #[trigger] is_closest_whole(stop, end)
            &&& stop * pow2(149) <= start ==> length == 0
            &&& stop * pow2(149) > start ==> is_whole_part(
                length,
                (stop * pow2(149) - start) as nat,
            )
        }
}

/// The edge of the window is what its size rounds to, at most 2^32.
proof fn lemma_edge(size: u32)
    ensures
        scissor::edge(size) <= float32::TWO_TO_32,
        rounding::rounds_to(size as nat * pow2(149), 1, scissor::edge(size)),
{
    rounding::lemma_rounding_exists(size as nat * float32::one(), 1);
    lemma_mul_inequality(size as int, 0x1_0000_0000, float32::one() as int);
    float32::lemma_nearest_bound(size as nat * float32::one(), scissor::edge(size));
}

/// Keeping the code of a number inside a range keeps the number inside.
proof fn lemma_clamped(word: u32, low: nat, high: nat)
    requires
        low <= high <= float32::TWO_TO_32,
    ensures
        rounding::units(
            scissor::clamped(scissor::order_of(word), low as int, high as int) as nat,
        ) == kept_inside(
            arithmetic_laws::value_of(word),
            rounding::units(low) as int,
            rounding::units(high) as int,
        ),
{
    arithmetic_laws::law_order_of_numbers(word, low as u32);
    arithmetic_laws::law_order_of_numbers(low as u32, word);
    arithmetic_laws::law_order_of_numbers(word, high as u32);
    arithmetic_laws::law_order_of_numbers(high as u32, word);
    if low < high {
        rounding::lemma_units_increase(low, high);
    }
}

/// The parts of a side are those of a scissor box.
proof fn lemma_side(min: u32, max: u32, scale: u32, size: u32)
    requires
        !float32::is_nan(float32::product(min, scale)),
        !float32::is_nan(float32::product(max, scale)),
    ensures
        is_side_of(
            arithmetic_laws::value_of(float32::product(min, scale)),
            arithmetic_laws::value_of(float32::product(max, scale)),
            rounding::units(scissor::edge(size)) as int,
            scissor::clip_origin(min, scale, size) as i32,
            scissor::clip_length(min, max, scale, size) as u32,
        ),
{
    let one = pow2(149);
    lemma_pow2_pos(149);
    lemma_edge(size);
    let edge = scissor::edge(size);
    let start = scissor::clip_start(min, scale, size);
    let end = scissor::clip_end(min, max, scale, size);
    assert(rounding::units(0) == 0);
    lemma_clamped(float32::product(min, scale), 0, edge);
    lemma_clamped(float32::product(max, scale), start, edge);
    arithmetic_laws::law_rounded_is_closest_whole(start);
    arithmetic_laws::law_rounded_is_closest_whole(end);
    let begin = float32::rounded(start);
    let stop = float32::rounded(end);
    assert(is_closest_whole(stop as int, rounding::units(end) as int));
    if begin >= i32::MAX {
        lemma_mul_inequality(i32::MAX as int, begin as int, one as int);
    }
    let code = float32::excess(stop, start);
    let length = scissor::clip_length(min, max, scale, size);
    if rounding::units(start) < stop * one {
        let gap = (stop * one - rounding::units(start)) as nat;
        rounding::lemma_rounding_exists(gap, 1);
        arithmetic_laws::law_truncated_is_whole_part(code);
        let whole = float32::truncated(code);
        assert(rounding::rounds_to(gap, 1, code));
        lemma_mul_inequality(length as int, whole as int, one as int);
        assert(is_whole_part(length as u32, gap));
    } else {
        vstd::arithmetic::div_mod::lemma_basic_div(0, one as int);
    }
}

/// The side of a rectangle becomes the side of its scissor box, where the
/// scaled corners are numbers. Corners along x are held against the width of the
/// window and corners along y against its height.
pub proof fn law_scissor_of_scaled_corners(context: EguiContext, rect: Rect)
    ensures
        ({
            let scale = context.scale_factor;
            let result = scissor::rect_scissor(context, rect);
            let left = float32::product(rect.min.x, scale);
            let right = float32::product(rect.max.x, scale);
            let top = float32::product(rect.min.y, scale);
            let bottom = float32::product(rect.max.y, scale);
            let width = rounding::nearest(context.physical_width as nat * pow2(149), 1);
            let height = rounding::nearest(context.physical_height as nat * pow2(149), 1);
            &&& left % 0x8000_0000 <= 0x7f80_0000 && right % 0x8000_0000 <= 0x7f80_0000
                ==> is_side_of(
                arithmetic_laws::value_of(left),
                arithmetic_laws::value_of(right),
                rounding::units(width) as int,
                result.origin[0],
                result.dimensions[0],
            )
            &&& top % 0x8000_0000 <= 0x7f80_0000 && bottom % 0x8000_0000 <= 0x7f80_0000
                ==> is_side_of(
                arithmetic_laws::value_of(top),
                arithmetic_laws::value_of(bottom),
                rounding::units(height) as int,
                result.origin[1],
                result.dimensions[1],
            )
        }),
{
    let scale = context.scale_factor;
    if !float32::is_nan(float32::product(rect.min.x, scale)) && !float32::is_nan(
        float32::product(rect.max.x, scale),
    ) {
        lemma_side(rect.min.x, rect.max.x, scale, context.physical_width);
    }
    if !float32::is_nan(float32::product(rect.min.y, scale)) && !float32::is_nan(
        float32::product(rect.max.y, scale),
    ) {
        lemma_side(rect.min.y, rect.max.y, scale, context.physical_height);
    }
}

/// A side with a scaled corner that is no number is empty. It begins where it
/// would with another end, or at zero if it is the start that is no number.
pub proof fn law_scissor_of_undefined_corners(context: EguiContext, rect: Rect, other: Rect)
    ensures
        ({
            let scale = context.scale_factor;
            let result = scissor::rect_scissor(context, rect);
            let left = float32::product(rect.min.x, scale) % 0x8000_0000;
            let right = float32::product(rect.max.x, scale) % 0x8000_0000;
            let top = float32::product(rect.min.y, scale) % 0x8000_0000;
            let bottom = float32::product(rect.max.y, scale) % 0x8000_0000;
            &&& left > 0x7f80_0000 ==> result.origin[0] == 0
            &&& left > 0x7f80_0000 || right > 0x7f80_0000 ==> result.dimensions[0] == 0
            &&& top > 0x7f80_0000 ==> result.origin[1] == 0
            &&& top > 0x7f80_0000 || bottom > 0x7f80_0000 ==> result.dimensions[1] == 0
            &&& rect.min == other.min ==> result.origin == scissor::rect_scissor(
                context,
                other,
            ).origin
        }),
{
}

proof fn lemma_whole_side(min: u32, max: u32, scale: u32, size: u32, first: nat, last: nat)
    requires
        scales_to(min, scale, first),
        scales_to(max, scale, last),
        first <= last <= size,
        first <= i32::MAX,
        is_single(first),
        is_single(last),
        is_single((last - first) as nat),
    ensures
        scissor::clip_origin(min, scale, size) == first,
        scissor::clip_length(min, max, scale, size) == last - first,
{
    let one = pow2(149);
    lemma_pow2_pos(149);
    lemma_edge(size);
    let a = choose|code: nat|
        code <= 0x7f80_0000 && #[trigger] rounding::units(code) == first * pow2(149);
    let b = choose|code: nat|
        code <= 0x7f80_0000 && #[trigger] rounding::units(code) == last * pow2(149);
    let c = choose|code: nat|
        code <= 0x7f80_0000 && #[trigger] rounding::units(code) == (last - first) as nat * pow2(
            149,
        );
    rounding::lemma_nearest_exact(a, one);
    rounding::lemma_nearest_exact(b, one);
    rounding::lemma_nearest_exact(a, 1);
    rounding::lemma_nearest_exact(b, 1);
    rounding::lemma_nearest_exact(c, 1);
    assert(float32::product(min, scale) == a);
    assert(float32::product(max, scale) == b);
    lemma_mul_inequality(first as int, last as int, one as int);
    lemma_mul_inequality(last as int, size as int, one as int);
    rounding::lemma_nearest_ordered(first * one, last * one, 1);
    rounding::lemma_nearest_ordered(last * one, size as nat * one, 1);
    assert(scissor::clip_start(min, scale, size) == a);
    assert(scissor::clip_end(min, max, scale, size) == b);
    arithmetic_laws::law_rounded_is_closest_whole(a);
    arithmetic_laws::law_rounded_is_closest_whole(b);
    lemma_only_whole(float32::rounded(a), first);
    lemma_only_whole(float32::rounded(b), last);
    assert((last - first) * one == last * one - first * one) by (nonlinear_arith);
    let code = float32::excess(last, a);
    arithmetic_laws::law_truncated_is_whole_part(code);
    if first < last {
        assert(first * one < last * one) by (nonlinear_arith)
            requires
                first < last,
                one > 0,
        ;
        assert(code == c);
    } else {
        assert((last - first) * one == 0);
        assert(rounding::units(0) == 0);
    }
    let whole = float32::truncated(code);
    assert(whole == last - first) by (nonlinear_arith)
        requires
            whole * one <= (last - first) * one,
            (last - first) * one < (whole + 1) * one,
            one > 0,
    ;
}

/// A whole number is the closest to itself.
proof fn lemma_only_whole(whole: nat, number: nat)
    requires
        2 * (whole * pow2(149)) <= 2 * (number * pow2(149)) + pow2(149),
        2 * (number * pow2(149)) < 2 * (whole * pow2(149)) + pow2(149),
    ensures
        whole == number,
{
    let one = pow2(149);
    lemma_pow2_pos(149);
    assert(whole == number) by (nonlinear_arith)
        requires
            2 * (whole * one) <= 2 * (number * one) + one,
            2 * (number * one) < 2 * (whole * one) + one,
            one > 0,
    ;
}

/// A rectangle whose corners scale to whole pixels inside the window becomes the
/// box between those pixels. Its coordinates and sides have to be numbers of
/// single precision, as all whole numbers up to 2^24 are.
pub proof fn law_scissor_of_whole_pixels(
    context: EguiContext,
    rect: Rect,
    left: nat,
    right: nat,
    top: nat,
    bottom: nat,
)
    requires
        scales_to(rect.min.x, context.scale_factor, left),
        scales_to(rect.max.x, context.scale_factor, right),
        scales_to(rect.min.y, context.scale_factor, top),
        scales_to(rect.max.y, context.scale_factor, bottom),
        left <= right <= context.physical_width,
        top <= bottom <= context.physical_height,
        left <= i32::MAX && top <= i32::MAX,
        is_single(left) && is_single(right) && is_single((right - left) as nat),
        is_single(top) && is_single(bottom) && is_single((bottom - top) as nat),
    ensures
        ({
            let result = scissor::rect_scissor(context, rect);
            &&& result.origin[0] == left
            &&& result.origin[1] == top
            &&& result.dimensions[0] == right - left
            &&& result.dimensions[1] == bottom - top
        }),
{
    let scale = context.scale_factor;
    lemma_whole_side(rect.min.x, rect.max.x, scale, context.physical_width, left, right);
    lemma_whole_side(rect.min.y, rect.max.y, scale, context.physical_height, top, bottom);
}

/// The box of a rectangle lies inside a window of up to 2^23 + 1 pixels a side.
pub proof fn law_box_inside_window(context: EguiContext, rect: Rect)
    requires
        context.physical_width <= 0x80_0001,
        context.physical_height <= 0x80_0001,
    ensures
        ({
            let result = scissor::rect_scissor(context, rect);
            &&& 0 <= result.origin[0]
            &&& 0 <= result.origin[1]
            &&& result.origin[0] + result.dimensions[0] <= context.physical_width
            &&& result.origin[1] + result.dimensions[1] <= context.physical_height
        }),
{
    let scale = context.scale_factor;
    laws::law_clip_inside_window(rect.min.x, rect.max.x, scale, context.physical_width);
    laws::law_clip_inside_window(rect.min.y, rect.max.y, scale, context.physical_height);
}

/// The box of a rectangle without bounds is the whole window, at a positive
/// scale and in a window of up to 2^24 pixels a side.
pub proof fn law_unbounded_box_is_whole_window(context: EguiContext, rect: Rect)
    requires
        0 < context.scale_factor <= 0x7f80_0000,
        context.physical_width <= 0x100_0000,
        context.physical_height <= 0x100_0000,
        rect.min.x == 0xff80_0000 && rect.min.y == 0xff80_0000,
        rect.max.x == 0x7f80_0000 && rect.max.y == 0x7f80_0000,
    ensures
        ({
            let result = scissor::rect_scissor(context, rect);
            &&& result.origin[0] == 0
            &&& result.origin[1] == 0
            &&& result.dimensions[0] == context.physical_width
            &&& result.dimensions[1] == context.physical_height
        }),
{
    let scale = context.scale_factor;
    laws::law_unbounded_clip_is_whole_window(scale, context.physical_width);
    laws::law_unbounded_clip_is_whole_window(scale, context.physical_height);
}

/// Whole numbers up to 2^24 are numbers of single precision.
pub proof fn law_whole_numbers_are_exact(whole: nat)
    requires
        whole <= 0x100_0000,
    ensures
        is_single(whole),
{
    let code = rounding::lemma_whole_code(whole);
    assert(code <= 0x7f80_0000 && rounding::units(code) == whole * pow2(149));
}

/// At scale one a rectangle between whole points inside the window becomes the
/// box between the pixels of the same numbers.
pub proof fn law_scissor_at_scale_one(
    context: EguiContext,
    rect: Rect,
    left: nat,
    right: nat,
    top: nat,
    bottom: nat,
)
    requires
        context.scale_factor == 0x3f80_0000,
        arithmetic_laws::value_of(rect.min.x) == left * pow2(149),
        arithmetic_laws::value_of(rect.max.x) == right * pow2(149),
        arithmetic_laws::value_of(rect.min.y) == top * pow2(149),
        arithmetic_laws::value_of(rect.max.y) == bottom * pow2(149),
        left <= right <= context.physical_width,
        top <= bottom <= context.physical_height,
        right <= 0x100_0000 && bottom <= 0x100_0000,
    ensures
        ({
            let result = scissor::rect_scissor(context, rect);
            &&& result.origin[0] == left
            &&& result.origin[1] == top
            &&& result.dimensions[0] == right - left
            &&& result.dimensions[1] == bottom - top
        }),
{
    lemma_scale_one_side(rect.min.x, rect.max.x, context.physical_width, left, right);
    lemma_scale_one_side(rect.min.y, rect.max.y, context.physical_height, top, bottom);
}

proof fn lemma_scale_one_side(min: u32, max: u32, size: u32, first: nat, last: nat)
    requires
        arithmetic_laws::value_of(min) == first * pow2(149),
        arithmetic_laws::value_of(max) == last * pow2(149),
        first <= last <= size,
        last <= 0x100_0000,
    ensures
        scissor::clip_origin(min, 0x3f80_0000, size) == first,
        scissor::clip_length(min, max, 0x3f80_0000, size) == last - first,
{
    let one = pow2(149);
    law_whole_numbers_are_exact(first);
    law_whole_numbers_are_exact(last);
    law_whole_numbers_are_exact((last - first) as nat);
    let start = lemma_plain_word(min, first);
    let end = lemma_plain_word(max, last);
    // A negative zero is as good as zero.
    lemma_whole_side(start, end, 0x3f80_0000, size, first, last);
    lemma_zeros_alike(min, start);
    lemma_zeros_alike(max, end);
}

/// The pattern without a sign of a whole number of pixels.
proof fn lemma_plain_word(word: u32, whole: nat) -> (plain: u32)
    requires
        arithmetic_laws::value_of(word) == whole * pow2(149),
        whole <= 0x100_0000,
    ensures
        plain == word || (plain == 0 && word == 0x8000_0000),
        scales_to(plain, 0x3f80_0000, whole),
{
    let one = pow2(149);
    lemma_pow2_pos(149);
    arithmetic_laws::law_numbers(0);
    let limit = rounding::lemma_whole_code(whole);
    let code = (word % 0x8000_0000) as nat;
    assert(whole * one >= 0) by (nonlinear_arith)
        requires
            one > 0,
    ;
    if word >= 0x8000_0000 {
        if code > 0 {
            rounding::lemma_units_increase(0, code);
        }
        assert(rounding::units(0) == 0);
    } else {
        if limit < code {
            rounding::lemma_units_increase(limit, code);
        }
    }
    let plain = if word >= 0x8000_0000 {
        0u32
    } else {
        word
    };
    lemma_mul_is_commutative((whole * one) as int, one as int);
    plain
}

/// At scale one both zeros scale to zero.
proof fn lemma_zeros_alike(word: u32, plain: u32)
    requires
        plain == word || (plain == 0 && word == 0x8000_0000),
    ensures
        scissor::order_of(float32::product(word, 0x3f80_0000)) == scissor::order_of(
            float32::product(plain, 0x3f80_0000),
        ),
        float32::is_nan(float32::product(word, 0x3f80_0000)) == float32::is_nan(
            float32::product(plain, 0x3f80_0000),
        ),
{
    if plain != word {
        lemma_pow2_pos(149);
        rounding::lemma_nearest_exact(0, pow2(149));
        assert(rounding::units(0) == 0);
        lemma_mul_basics(rounding::units(0x3f80_0000) as int);
        lemma_mul_basics(pow2(149) as int);
    }
}

} // verus!
