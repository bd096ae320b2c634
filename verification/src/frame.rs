//! One frame: which meshes are drawn, and where their data lies in the buffers.

use crate::float32;
use crate::mesh::{ClippedMesh, Mesh, TextureId};
use crate::scissor::{self, EguiContext, Scissor};
use vstd::prelude::*;

verus! {

/// The size of a vertex in bytes: eight components of four bytes.
pub const VERTEX_BYTES: usize = 32;

/// The size of an index in bytes.
pub const INDEX_BYTES: usize = 4;

/// One mesh to be drawn.
#[derive(Clone, Copy, Debug, PartialEq, Eq)]
pub struct DrawCall {
    /// The position of the mesh in the list that is drawn.
    pub mesh: usize,
    pub texture_id: TextureId,
    pub scissor: Scissor,
    pub vertex_start: usize,
    pub vertices_count: usize,
    pub index_start: usize,
    pub indices_count: usize,
}

/// The numbers of elements that new buffers have room for.
#[derive(Clone, Copy, Debug, PartialEq, Eq)]
pub struct Growth {
    pub new_vertices_size: usize,
    pub new_indices_size: usize,
}

/// What is to be done for a frame.
#[derive(Debug, PartialEq, Eq)]
pub struct Frame {
    /// The size of the framebuffer in points, as bit patterns of `f32`s.
    pub screen_size: [u32; 2],
    /// The corner of the viewport of every draw call, as bit patterns of `f32`s.
    pub viewport_origin: [u32; 2],
    /// The size of the viewport, that of the framebuffer in pixels, as bit
    /// patterns of `f32`s.
    pub viewport: [u32; 2],
    /// The nearest and the farthest depth, as bit patterns of `f32`s.
    pub depth_range: [u32; 2],
    /// The meshes to draw, in this order.
    pub calls: Vec<DrawCall>,
    /// The textures of meshes that are left out because they no longer exist.
    pub missing: Vec<TextureId>,
    /// The new buffers to allocate, if a mesh did not fit. Drawing stops before
    /// that mesh.
    pub growth: Option<Growth>,
}

/// The slot that a user texture has.
pub open spec fn slot_of(id: u64) -> int {
    (id as usize) as int
}

/// Whether a texture exists, with these slots for user textures.
pub open spec fn has_texture<D>(slots: Seq<Option<D>>, texture_id: TextureId) -> bool {
    match texture_id {
        TextureId::Egui => true,
        TextureId::User(id) => slot_of(id) < slots.len() && slots[slot_of(id)] is Some,
    }
}

/// Whether a mesh holds anything to draw.
pub open spec fn has_content(mesh: Mesh) -> bool {
    mesh.vertices@.len() > 0 && mesh.indices@.len() > 0
}

/// Whether a mesh is drawn if there is room for it.
pub open spec fn is_drawn<D>(slots: Seq<Option<D>>, mesh: Mesh) -> bool {
    has_content(mesh) && has_texture(slots, mesh.texture_id)
}

/// The number of vertices that are drawn of the first `n` meshes.
pub open spec fn vertex_offset<D>(
    slots: Seq<Option<D>>,
    meshes: Seq<ClippedMesh>,
    n: nat,
) -> nat
    decreases n,
{
    if n == 0 {
        0
    } else {
        let mesh = meshes[n - 1].mesh;
        vertex_offset(slots, meshes, (n - 1) as nat) + if is_drawn(slots, mesh) {
            mesh.vertices@.len()
        } else {
            0
        }
    }
}

/// The number of indices that are drawn of the first `n` meshes.
pub open spec fn index_offset<D>(
    slots: Seq<Option<D>>,
    meshes: Seq<ClippedMesh>,
    n: nat,
) -> nat
    decreases n,
{
    if n == 0 {
        0
    } else {
        let mesh = meshes[n - 1].mesh;
        index_offset(slots, meshes, (n - 1) as nat) + if is_drawn(slots, mesh) {
            mesh.indices@.len()
        } else {
            0
        }
    }
}

/// Whether that many vertices and indices leave room in buffers of these
/// sizes in bytes.
pub open spec fn leaves_room(
    vertex_end: nat,
    index_end: nat,
    vertex_bytes: nat,
    index_bytes: nat,
) -> bool {
    vertex_end * VERTEX_BYTES < vertex_bytes && index_end * INDEX_BYTES < index_bytes
}

/// Whether the first `n` meshes leave room in buffers of these sizes.
pub open spec fn fits<D>(
    slots: Seq<Option<D>>,
    meshes: Seq<ClippedMesh>,
    vertex_bytes: nat,
    index_bytes: nat,
    n: nat,
) -> bool {
    leaves_room(
        vertex_offset(slots, meshes, n),
        index_offset(slots, meshes, n),
        vertex_bytes,
        index_bytes,
    )
}

/// The position of the first mesh from `i` on that is to be drawn and does not
/// fit, or the number of meshes if all do.
pub open spec fn stop_from<D>(
    slots: Seq<Option<D>>,
    meshes: Seq<ClippedMesh>,
    vertex_bytes: nat,
    index_bytes: nat,
    i: nat,
) -> nat
    decreases meshes.len() - i,
{
    if i >= meshes.len() {
        meshes.len()
    } else if is_drawn(slots, meshes[i as int].mesh) && !fits(
        slots,
        meshes,
        vertex_bytes,
        index_bytes,
        i + 1,
    ) {
        i
    } else {
        stop_from(slots, meshes, vertex_bytes, index_bytes, i + 1)
    }
}

/// Where drawing stops.
pub open spec fn stop<D>(
    slots: Seq<Option<D>>,
    meshes: Seq<ClippedMesh>,
    vertex_bytes: nat,
    index_bytes: nat,
) -> nat {
    stop_from(slots, meshes, vertex_bytes, index_bytes, 0)
}

/// The draw call for the mesh at position `i`.
pub open spec fn call_for<D>(
    slots: Seq<Option<D>>,
    context: EguiContext,
    meshes: Seq<ClippedMesh>,
    i: nat,
) -> DrawCall {
    let clipped = meshes[i as int];
    DrawCall {
        mesh: i as usize,
        texture_id: clipped.mesh.texture_id,
        scissor: scissor::rect_scissor(context, clipped.rect),
        vertex_start: vertex_offset(slots, meshes, i) as usize,
        vertices_count: clipped.mesh.vertices@.len() as usize,
        index_start: index_offset(slots, meshes, i) as usize,
        indices_count: clipped.mesh.indices@.len() as usize,
    }
}

/// The draw calls for the first `n` meshes.
pub open spec fn calls_for<D>(
    slots: Seq<Option<D>>,
    context: EguiContext,
    meshes: Seq<ClippedMesh>,
    n: nat,
) -> Seq<DrawCall>
    decreases n,
{
    if n == 0 {
        Seq::empty()
    } else {
        let before = calls_for(slots, context, meshes, (n - 1) as nat);
        if is_drawn(slots, meshes[n - 1].mesh) {
            before.push(call_for(slots, context, meshes, (n - 1) as nat))
        } else {
            before
        }
    }
}

/// The textures that the first `n` meshes ask for and that do not exist.
pub open spec fn missing_for<D>(
    slots: Seq<Option<D>>,
    meshes: Seq<ClippedMesh>,
    n: nat,
) -> Seq<TextureId>
    decreases n,
{
    if n == 0 {
        Seq::empty()
    } else {
        let before = missing_for(slots, meshes, (n - 1) as nat);
        let mesh = meshes[n - 1].mesh;
        if has_content(mesh) && !has_texture(slots, mesh.texture_id) {
            before.push(mesh.texture_id)
        } else {
            before
        }
    }
}

/// The new buffers to allocate after a frame, twice as many elements as the old ones have
/// bytes, if some mesh does not fit.
pub open spec fn growth_for<D>(
    slots: Seq<Option<D>>,
    meshes: Seq<ClippedMesh>,
    vertex_bytes: nat,
    index_bytes: nat,
) -> Option<Growth> {
    if stop(slots, meshes, vertex_bytes, index_bytes) < meshes.len() {
        Some(
            Growth {
                new_vertices_size: (2 * vertex_bytes) as usize,
                new_indices_size: (2 * index_bytes) as usize,
            },
        )
    } else {
        None
    }
}

/// The size of a framebuffer in pixels.
pub open spec fn viewport_size(dimensions: [u32; 2]) -> [u32; 2] {
    [
        float32::ratio(dimensions[0] as nat, 1) as u32,
        float32::ratio(dimensions[1] as nat, 1) as u32,
    ]
}

/// The size of a framebuffer in points.
pub open spec fn point_size(dimensions: [u32; 2], scale_factor: u32) -> [u32; 2] {
    [
        float32::quotient(viewport_size(dimensions)[0], scale_factor),
        float32::quotient(viewport_size(dimensions)[1], scale_factor),
    ]
}

/// Whether a mesh asks for a slot that was ever given out.
pub open spec fn slot_in_range<D>(slots: Seq<Option<D>>, texture_id: TextureId) -> bool {
    texture_id matches TextureId::User(id) ==> slot_of(id) < slots.len()
}

/// Whether the sizes in bytes that a frame computes are `usize`s, and no mesh
/// that it comes to asks for a slot out of range.
pub open spec fn is_valid_request<D>(
    slots: Seq<Option<D>>,
    meshes: Seq<ClippedMesh>,
    vertex_bytes: nat,
    index_bytes: nat,
) -> bool {
    let end = stop(slots, meshes, vertex_bytes, index_bytes);
    &&& forall|i: int|
        0 <= i < meshes.len() && i <= end && has_content(#[trigger] meshes[i].mesh)
            ==> slot_in_range(slots, meshes[i].mesh.texture_id)
    &&& end < meshes.len() ==> {
        let vertex_end = vertex_offset(slots, meshes, end + 1);
        let index_end = index_offset(slots, meshes, end + 1);
        &&& vertex_end * VERTEX_BYTES <= usize::MAX
        &&& index_end <= usize::MAX
        &&& vertex_end * VERTEX_BYTES < vertex_bytes ==> index_end * INDEX_BYTES <= usize::MAX
        &&& 2 * vertex_bytes * VERTEX_BYTES <= usize::MAX
        &&& 2 * index_bytes * INDEX_BYTES <= usize::MAX
    }
}

/// Drawing stops no earlier than where it has come to.
pub proof fn lemma_stop_from_reaches<D>(
    slots: Seq<Option<D>>,
    meshes: Seq<ClippedMesh>,
    vertex_bytes: nat,
    index_bytes: nat,
    i: nat,
)
    requires
        i <= meshes.len(),
    ensures
        i <= stop_from(slots, meshes, vertex_bytes, index_bytes, i) <= meshes.len(),
    decreases meshes.len() - i,
{
    if i < meshes.len() {
        lemma_stop_from_reaches(slots, meshes, vertex_bytes, index_bytes, i + 1);
    }
}

} // verus!
