use egui_vulkano::scissor::clip_side;
use egui_vulkano::{EguiContext, EguiVulkanoRenderer, Pos2, Rect, Scissor};

fn next(state: &mut u64) -> u64 {
    *state = state
        .wrapping_mul(6364136223846793005)
        .wrapping_add(1442695040888963407);
    *state >> 16
}

fn side(min: f32, max: f32, scale: f32, size: u32) -> (i32, u32) {
    clip_side(min.to_bits(), max.to_bits(), scale.to_bits(), size)
}

/// The same side in the arithmetic of the machine.
fn reference(min: f32, max: f32, scale: f32, size: u32) -> (i32, u32) {
    let clamp = |x: f32, low: f32, high: f32| {
        if x <= low {
            low
        } else if high <= x {
            high
        } else {
            x
        }
    };
    let start = clamp(min * scale, 0.0, size as f32);
    let end = clamp(max * scale, start, size as f32);
    (start.round() as i32, (end.round() - start) as u32)
}

fn rect(min: [f32; 2], max: [f32; 2]) -> Rect {
    Rect {
        min: Pos2 { x: min[0].to_bits(), y: min[1].to_bits() },
        max: Pos2 { x: max[0].to_bits(), y: max[1].to_bits() },
    }
}

#[test]
fn scissor_of_a_plain_rectangle() {
    let renderer = EguiVulkanoRenderer::new(());
    let context = EguiContext {
        scale_factor: 2.0f32.to_bits(),
        physical_width: 800,
        physical_height: 600,
    };
    assert_eq!(
        renderer.get_rect_scissor(&context, rect([10.0, 20.0], [110.0, 70.5])),
        Scissor { origin: [20, 40], dimensions: [200, 101] }
    );
}

#[test]
fn scissor_is_clamped_to_the_window() {
    let renderer = EguiVulkanoRenderer::new(());
    let context = EguiContext {
        scale_factor: 1.5f32.to_bits(),
        physical_width: 300,
        physical_height: 200,
    };
    assert_eq!(
        renderer.get_rect_scissor(&context, rect([-20.0, 100.0], [1000.0, 500.0])),
        Scissor { origin: [0, 150], dimensions: [300, 50] }
    );
    assert_eq!(
        renderer.get_rect_scissor(&context, rect([400.0, -5.0], [500.0, -1.0])),
        Scissor { origin: [300, 0], dimensions: [0, 0] }
    );
}

#[test]
fn fractions_of_pixels() {
    // The start is rounded for the origin, and taken as it is for the length.
    assert_eq!(side(0.5, 10.0, 1.0, 100), (1, 9));
    assert_eq!(side(0.4, 10.0, 1.0, 100), (0, 9));
    assert_eq!(side(0.4, 0.4, 1.0, 100), (0, 0));
    assert_eq!(side(1.0e-30, 1.0, 1.0, 100), (0, 1));
    assert_eq!(side(2.25, 7.5, 1.0, 100), (2, 5));
}

#[test]
fn reversed_rectangles_are_empty() {
    assert_eq!(side(50.0, 20.0, 1.0, 100), (50, 0));
}

#[test]
fn unbounded_rectangles_are_the_whole_window() {
    for &size in [0u32, 1, 799, 1080, 0x100_0000].iter() {
        assert_eq!(side(f32::NEG_INFINITY, f32::INFINITY, 1.25, size), (0, size));
    }
}

#[test]
fn undefined_coordinates_give_nothing() {
    assert_eq!(side(f32::NAN, 10.0, 1.0, 100), (0, 0));
    assert_eq!(side(10.0, f32::NAN, 1.0, 100), (10, 0));
    assert_eq!(side(f32::NEG_INFINITY, 10.0, 0.0, 100), (0, 0));
}

#[test]
fn huge_windows_saturate() {
    assert_eq!(side(0.0, f32::INFINITY, 1.0, u32::MAX), (0, u32::MAX));
    assert_eq!(side(4.0e9, f32::INFINITY, 1.0, u32::MAX), reference(4.0e9, f32::INFINITY, 1.0, u32::MAX));
    assert_eq!(side(4.0e9, f32::INFINITY, 1.0, u32::MAX).0, i32::MAX);
}

#[test]
fn scissors_of_many_rectangles() {
    let mut state: u64 = 3;
    for i in 0..200_000u32 {
        let size = match i % 3 {
            0 => (next(&mut state) % 5000) as u32,
            1 => (next(&mut state) % 0x0200_0000) as u32,
            _ => next(&mut state) as u32,
        };
        let scale = 0.25 + (next(&mut state) % 4096) as f32 / 1024.0;
        let spread = size as f32 * 1.5 + 3.0;
        let min = (next(&mut state) % 0x100_0000) as f32 / 16777216.0 * spread - spread * 0.25;
        let max = (next(&mut state) % 0x100_0000) as f32 / 16777216.0 * spread - spread * 0.25;
        let (min, max) = if i % 5 == 0 { (min, max) } else { (min.min(max), min.max(max)) };
        assert_eq!(side(min, max, scale, size), reference(min, max, scale, size));
        let min = f32::from_bits(next(&mut state) as u32);
        let max = f32::from_bits(next(&mut state) as u32);
        assert_eq!(side(min, max, scale, size), reference(min, max, scale, size));
    }
}

#[test]
fn clipped_sides_lie_inside_the_window() {
    let mut state: u64 = 5;
    for _ in 0..50_000 {
        let size = (next(&mut state) % 0x80_0002) as u32;
        let min = (next(&mut state) % 0x100_0000) as f32 / 2.0;
        let max = (next(&mut state) % 0x100_0000) as f32 / 2.0;
        let (origin, length) = side(min, max, 1.0, size);
        assert!(origin >= 0 && origin as u64 + length as u64 <= size as u64);
    }
    // Just above that size the length may be rounded up over the edge.
    assert_eq!(side(0.5, 8388610.0, 1.0, 8388610), (1, 8388610));
}
