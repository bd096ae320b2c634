use egui_vulkano::frame::{INDEX_BYTES, VERTEX_BYTES};
use egui_vulkano::renderer::{INDEX_BUFFER_SIZE, VERTEX_BUFFER_SIZE};
use egui_vulkano::{
    ClippedMesh, EguiContext, EguiVertex, EguiVulkanoRenderer, Growth, Mesh, Pos2, Rect, Scissor,
    TextureId, Vertex,
};

const CONTEXT: EguiContext = EguiContext {
    scale_factor: 0x3fc0_0000, // 1.5
    physical_width: 640,
    physical_height: 480,
};

fn pos(x: f32, y: f32) -> Pos2 {
    Pos2 { x: x.to_bits(), y: y.to_bits() }
}

fn clipped(vertices: usize, indices: usize, texture_id: TextureId, seed: u8) -> ClippedMesh {
    let vertex = Vertex {
        pos: pos(seed as f32, 2.0),
        uv: pos(0.25, 0.75),
        color: [seed, 0, 255, 51],
    };
    ClippedMesh {
        rect: Rect { min: pos(0.0, 0.0), max: pos(100.0, 50.0) },
        mesh: Mesh {
            indices: vec![seed as u32; indices],
            vertices: vec![vertex; vertices],
            texture_id,
        },
    }
}

/// The vertices and indices that the first buffers have room for.
fn small_renderer(vertices: usize, indices: usize) -> EguiVulkanoRenderer<u32> {
    let mut renderer = EguiVulkanoRenderer::new(100);
    renderer.resize_allocations(vertices, indices);
    renderer
}

#[test]
fn first_buffers() {
    let renderer = EguiVulkanoRenderer::new(());
    assert_eq!(VERTEX_BUFFER_SIZE, 1024 * 1024 * 4);
    assert_eq!(INDEX_BUFFER_SIZE, 1024 * 1024 * 2);
    assert_eq!(renderer.vertex_buffer_size(), 1024 * 1024 * 4 * 32);
    assert_eq!(renderer.index_buffer_size(), 1024 * 1024 * 2 * 4);
}

#[test]
fn sizes_of_elements() {
    assert_eq!(std::mem::size_of::<EguiVertex>(), VERTEX_BYTES);
    assert_eq!(std::mem::size_of::<u32>(), INDEX_BYTES);
}

#[test]
fn buffers_are_never_empty() {
    let renderer = small_renderer(0, 0);
    assert_eq!(renderer.vertex_buffer_size(), 1);
    assert_eq!(renderer.index_buffer_size(), 1);
    assert!(!renderer.resize_needed(0, 0));
    assert!(renderer.resize_needed(1, 0));
}

#[test]
fn a_full_buffer_needs_resizing() {
    let renderer = small_renderer(10, 20);
    assert!(!renderer.resize_needed(9, 19));
    assert!(renderer.resize_needed(10, 19));
    assert!(renderer.resize_needed(9, 20));
}

#[test]
fn meshes_are_packed_in_order() {
    let mut renderer = small_renderer(100, 100);
    let user = renderer.register_user_image(7);
    let meshes = vec![
        clipped(4, 6, TextureId::Egui, 1),
        clipped(0, 6, TextureId::Egui, 2),
        clipped(3, 3, user, 3),
        clipped(4, 0, TextureId::Egui, 4),
        clipped(5, 9, TextureId::Egui, 5),
    ];
    assert!(renderer.can_draw(&meshes));
    let frame = renderer.draw(&CONTEXT, &meshes, [640, 480]);
    assert_eq!(frame.growth, None);
    assert!(frame.missing.is_empty());
    let ranges: Vec<_> = frame
        .calls
        .iter()
        .map(|c| (c.mesh, c.vertex_start, c.vertices_count, c.index_start, c.indices_count))
        .collect();
    assert_eq!(ranges, vec![(0, 0, 4, 0, 6), (2, 4, 3, 6, 3), (4, 7, 5, 9, 9)]);
    assert_eq!(frame.calls[1].texture_id, user);
    assert_eq!(renderer.desc_set(frame.calls[1].texture_id), Some(&7));
    assert_eq!(renderer.desc_set(frame.calls[0].texture_id), Some(&100));
    assert_eq!(
        frame.calls[0].scissor,
        Scissor { origin: [0, 0], dimensions: [150, 75] }
    );
}

#[test]
fn meshes_without_their_texture_are_left_out() {
    let mut renderer = small_renderer(100, 100);
    let gone = renderer.register_user_image(1);
    let kept = renderer.register_user_image(2);
    renderer.unregister_user_image(gone);
    let meshes = vec![
        clipped(4, 6, gone, 1),
        clipped(0, 0, gone, 2),
        clipped(3, 3, kept, 3),
    ];
    let frame = renderer.draw(&CONTEXT, &meshes, [640, 480]);
    assert_eq!(frame.missing, vec![gone]);
    assert_eq!(frame.calls.len(), 1);
    assert_eq!(frame.calls[0].mesh, 2);
    assert_eq!(frame.calls[0].vertex_start, 0);
}

#[test]
fn a_mesh_that_does_not_fit_stops_the_frame() {
    let mut renderer = small_renderer(10, 100);
    let meshes = vec![
        clipped(6, 6, TextureId::Egui, 1),
        clipped(4, 6, TextureId::Egui, 2),
        clipped(1, 1, TextureId::Egui, 3),
    ];
    let first = renderer.draw(&CONTEXT, &meshes, [640, 480]);
    assert_eq!(first.calls.len(), 1);
    assert_eq!(
        first.growth,
        Some(Growth { new_vertices_size: 2 * 10 * 32, new_indices_size: 2 * 100 * 4 })
    );
    // The buffers are the old ones until the new ones are there.
    assert_eq!(renderer.vertex_buffer_size(), 10 * 32);
    assert_eq!(renderer.index_buffer_size(), 100 * 4);
    let growth = first.growth.unwrap();
    renderer.resize_allocations(growth.new_vertices_size, growth.new_indices_size);
    assert_eq!(renderer.vertex_buffer_size(), 64 * 10 * 32);
    assert_eq!(renderer.index_buffer_size(), 8 * 100 * 4);
    // The next frame goes on from there.
    let second = renderer.draw(&CONTEXT, &meshes, [640, 480]);
    assert_eq!(second.growth, None);
    assert_eq!(second.calls.len(), 3);
    assert_eq!(second.calls[0], first.calls[0]);
    assert_eq!(renderer.vertex_buffer_size(), 64 * 10 * 32);
}

#[test]
fn slots_never_given_out_cannot_be_drawn() {
    let mut renderer = small_renderer(10, 10);
    renderer.register_user_image(1);
    assert!(renderer.can_draw(&vec![clipped(1, 1, TextureId::User(0), 1)]));
    assert!(!renderer.can_draw(&vec![clipped(1, 1, TextureId::User(1), 1)]));
    // An empty mesh does not matter, nor one behind the mesh that stops the frame.
    assert!(renderer.can_draw(&vec![clipped(0, 1, TextureId::User(1), 1)]));
    assert!(renderer.can_draw(&vec![
        clipped(20, 1, TextureId::Egui, 1),
        clipped(1, 1, TextureId::User(1), 2),
    ]));
}

#[test]
fn buffers_that_cannot_grow_cannot_be_drawn_over() {
    let renderer = small_renderer(usize::MAX / 64, 10);
    assert!(renderer.can_draw(&vec![clipped(1, 1, TextureId::Egui, 1)]));
    assert!(!renderer.can_draw(&vec![clipped(1, 10, TextureId::Egui, 1)]));
}

#[test]
fn sizes_of_the_framebuffer() {
    let renderer = small_renderer(10, 10);
    let frame = renderer.draw(&CONTEXT, &Vec::new(), [1921, 1080]);
    assert_eq!(frame.viewport_origin, [0.0f32.to_bits(), 0.0f32.to_bits()]);
    assert_eq!(frame.depth_range, [0.0f32.to_bits(), 1.0f32.to_bits()]);
    assert_eq!(frame.viewport, [1921.0f32.to_bits(), 1080.0f32.to_bits()]);
    assert_eq!(
        frame.screen_size,
        [(1921.0f32 / 1.5).to_bits(), (1080.0f32 / 1.5).to_bits()]
    );
    assert!(frame.calls.is_empty());
}

#[test]
fn copying_writes_its_part_only() {
    let renderer = EguiVulkanoRenderer::new(());
    let mesh = clipped(2, 3, TextureId::Egui, 204).mesh;
    let blank = EguiVertex::default();
    let mut vertices = vec![blank; 5];
    let mut indices = vec![9u32; 6];
    renderer.copy_mesh(&mesh, 1, 2, &mut vertices, &mut indices);
    let written = EguiVertex {
        position: [204.0f32.to_bits(), 2.0f32.to_bits()],
        tex_coords: [0.25f32.to_bits(), 0.75f32.to_bits()],
        color: [
            0.8f32.to_bits(),
            0.0f32.to_bits(),
            1.0f32.to_bits(),
            0.2f32.to_bits(),
        ],
    };
    assert_eq!(vertices, vec![blank, written, written, blank, blank]);
    assert_eq!(indices, vec![9, 9, 204, 204, 204, 9]);
}

#[test]
fn copying_nothing_may_start_anywhere() {
    let renderer = EguiVulkanoRenderer::new(());
    let mut vertices = vec![EguiVertex::default(); 2];
    let mut indices = vec![9u32; 2];
    let empty = clipped(0, 0, TextureId::Egui, 1).mesh;
    renderer.copy_mesh(&empty, usize::MAX, 7, &mut vertices, &mut indices);
    assert_eq!(vertices, vec![EguiVertex::default(); 2]);
    assert_eq!(indices, vec![9, 9]);
    let no_vertices = clipped(0, 1, TextureId::Egui, 3).mesh;
    renderer.copy_mesh(&no_vertices, 100, 1, &mut vertices, &mut indices);
    assert_eq!(indices, vec![9, 3]);
}

#[test]
fn buffers_hold_the_frame() {
    let renderer = small_renderer(20, 20);
    let meshes = vec![
        clipped(4, 6, TextureId::Egui, 1),
        clipped(3, 3, TextureId::Egui, 2),
        clipped(5, 9, TextureId::Egui, 3),
    ];
    let frame = renderer.draw(&CONTEXT, &meshes, [640, 480]);
    assert_eq!(frame.calls.len(), 3);
    let mut vertices = vec![EguiVertex::default(); 20];
    let mut indices = vec![0u32; 20];
    for call in frame.calls.iter() {
        renderer.copy_mesh(
            &meshes[call.mesh].mesh,
            call.vertex_start,
            call.index_start,
            &mut vertices,
            &mut indices,
        );
    }
    for call in frame.calls.iter() {
        let mesh = &meshes[call.mesh].mesh;
        for (i, vertex) in mesh.vertices.iter().enumerate() {
            assert_eq!(vertices[call.vertex_start + i], EguiVertex::from_vertex(vertex));
        }
        for (i, index) in mesh.indices.iter().enumerate() {
            assert_eq!(indices[call.index_start + i], *index);
        }
    }
    assert_eq!(vertices[12], EguiVertex::default());
    assert_eq!(indices[18], 0);
}
