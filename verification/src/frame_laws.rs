//! What a frame draws, in terms of the meshes and of the buffers.

use crate::arithmetic_laws;
use crate::float32;
use crate::frame::{self, DrawCall};
use crate::laws;
use crate::mesh::{ClippedMesh, EguiVertex, Mesh, TextureId};
use crate::mesh_laws;
use crate::renderer;
use crate::rounding;
use crate::scissor::{self, EguiContext};
use vstd::arithmetic::mul::*;
use vstd::arithmetic::power2::*;
use vstd::prelude::*;

verus! {

/// Whether a mesh has something to show: vertices, indices, and a texture that
/// is the font or whose slot is taken.
pub open spec fn is_visible<D>(slots: Seq<Option<D>>, mesh: Mesh) -> bool {
    &&& mesh.vertices@.len() > 0
    &&& mesh.indices@.len() > 0
    &&& match mesh.texture_id {
        TextureId::Egui => true,
        TextureId::User(id) => (id as usize) < slots.len() && slots[(id as usize) as int] is Some,
    }
}

/// Whether a mesh has content but asks for a slot that is empty.
pub open spec fn lacks_texture<D>(slots: Seq<Option<D>>, mesh: Mesh) -> bool {
    &&& mesh.vertices@.len() > 0
    &&& mesh.indices@.len() > 0
    &&& mesh.texture_id matches TextureId::User(id) && !((id as usize) < slots.len() && slots[(
    id as usize) as int] is Some)
}

/// The vertex behind the last that draw calls use.
pub open spec fn vertex_end(calls: Seq<DrawCall>) -> int {
    if calls.len() == 0 {
        0
    } else {
        calls.last().vertex_start + calls.last().vertices_count
    }
}

/// The index behind the last that draw calls use.
pub open spec fn index_end(calls: Seq<DrawCall>) -> int {
    if calls.len() == 0 {
        0
    } else {
        calls.last().index_start + calls.last().indices_count
    }
}

/// The draw calls of a frame.
pub open spec fn frame_calls<D>(
    slots: Seq<Option<D>>,
    context: EguiContext,
    meshes: Seq<ClippedMesh>,
    vertex_bytes: nat,
    index_bytes: nat,
) -> Seq<DrawCall> {
    frame::calls_for(
        slots,
        context,
        meshes,
        frame::stop(slots, meshes, vertex_bytes, index_bytes),
    )
}

/// Every draw call is that of the mesh it names: the texture, the scissor box and
/// the counts are those of that mesh, which has something to show.
pub proof fn law_calls_match_their_meshes<D>(
    slots: Seq<Option<D>>,
    context: EguiContext,
    meshes: Seq<ClippedMesh>,
    n: nat,
)
    requires
        n <= meshes.len() <= usize::MAX,
    ensures
        ({
            let calls = frame::calls_for(slots, context, meshes, n);
            forall|k: int|
                0 <= k < calls.len() ==> {
                    let clipped = meshes[(#[trigger] calls[k]).mesh as int];
                    &&& calls[k].mesh < n
                    &&& calls[k].texture_id == clipped.mesh.texture_id
                    &&& calls[k].scissor == scissor::rect_scissor(context, clipped.rect)
                    &&& calls[k].vertices_count == clipped.mesh.vertices@.len()
                    &&& calls[k].indices_count == clipped.mesh.indices@.len()
                    &&& is_visible(slots, clipped.mesh)
                }
        }),
{
    laws::law_calls_in_order(slots, context, meshes, n);
    let calls = frame::calls_for(slots, context, meshes, n);
    assert forall|k: int| 0 <= k < calls.len() implies {
        let clipped = meshes[(#[trigger] calls[k]).mesh as int];
        &&& calls[k].vertices_count == clipped.mesh.vertices@.len()
        &&& calls[k].indices_count == clipped.mesh.indices@.len()
    } by {
        let clipped = meshes[calls[k].mesh as int];
        assert(clipped.mesh.vertices.len() == clipped.mesh.vertices@.len());
        assert(clipped.mesh.indices.len() == clipped.mesh.indices@.len());
    }
}

/// A frame draws the meshes that have something to show, each once and in their
/// order, up to the first whose vertices would reach the end of the vertex
/// buffer or whose indices would reach the end of the index buffer behind those
/// of the meshes before it. New buffers are asked for if there is such a mesh.
#[verifier::spinoff_prover]
pub proof fn law_frame_draws_what_fits<D>(
    slots: Seq<Option<D>>,
    context: EguiContext,
    meshes: Seq<ClippedMesh>,
    vertex_bytes: nat,
    index_bytes: nat,
)
    requires
        meshes.len() <= usize::MAX,
        0 < vertex_bytes <= usize::MAX,
        0 < index_bytes <= usize::MAX,
    ensures
        ({
            let end = frame::stop(slots, meshes, vertex_bytes, index_bytes);
            let calls = frame_calls(slots, context, meshes, vertex_bytes, index_bytes);
            let vertices = vertex_end(calls);
            let indices = index_end(calls);
            &&& end <= meshes.len()
            &&& forall|k: int| 0 <= k < calls.len() ==> (#[trigger] calls[k]).mesh < end
            &&& forall|k: int, l: int|
                0 <= k < l < calls.len() ==> (#[trigger] calls[k]).mesh < (
                #[trigger] calls[l]).mesh
            &&& forall|i: int|
                0 <= i < end && is_visible(slots, #[trigger] meshes[i].mesh) ==> exists|k: int|
                    0 <= k < calls.len() && (#[trigger] calls[k]).mesh == i
            &&& vertices * 32 < vertex_bytes && indices * 4 < index_bytes
            &&& end < meshes.len() ==> {
                let mesh = meshes[end as int].mesh;
                &&& is_visible(slots, mesh)
                &&& (vertices + mesh.vertices@.len()) * 32 >= vertex_bytes || (indices
                    + mesh.indices@.len()) * 4 >= index_bytes
            }
            &&& frame::growth_for(slots, meshes, vertex_bytes, index_bytes) is Some <==> end
                < meshes.len()
        }),
{
    let end = frame::stop(slots, meshes, vertex_bytes, index_bytes);
    frame::lemma_stop_from_reaches(slots, meshes, vertex_bytes, index_bytes, 0);
    laws::law_calls_in_order(slots, context, meshes, end);
    laws::law_calls_are_packed(slots, context, meshes, vertex_bytes, index_bytes, end);
    lemma_stops_at(slots, meshes, vertex_bytes, index_bytes, 0);
    let calls = frame_calls(slots, context, meshes, vertex_bytes, index_bytes);
    assert(vertex_end(calls) == frame::vertex_offset(slots, meshes, end));
    assert(index_end(calls) == frame::index_offset(slots, meshes, end));
    assert forall|i: int|
        0 <= i < end && is_visible(slots, #[trigger] meshes[i].mesh) implies exists|k: int|
        0 <= k < calls.len() && (#[trigger] calls[k]).mesh == i by {
        law_meshes_are_accounted_for(slots, meshes[i].mesh);
    }
    if end < meshes.len() {
        let mesh = meshes[end as int].mesh;
        law_meshes_are_accounted_for(slots, mesh);
        assert(frame::vertex_offset(slots, meshes, end + 1) == frame::vertex_offset(
            slots,
            meshes,
            end,
        ) + mesh.vertices@.len());
        assert(frame::index_offset(slots, meshes, end + 1) == frame::index_offset(
            slots,
            meshes,
            end,
        ) + mesh.indices@.len());
    }
}

/// Drawing stops at a mesh that is to be drawn and does not fit.
proof fn lemma_stops_at<D>(
    slots: Seq<Option<D>>,
    meshes: Seq<ClippedMesh>,
    vertex_bytes: nat,
    index_bytes: nat,
    i: nat,
)
    requires
        i <= meshes.len(),
    ensures
        ({
            let end = frame::stop_from(slots, meshes, vertex_bytes, index_bytes, i);
            end < meshes.len() ==> {
                &&& frame::is_drawn(slots, meshes[end as int].mesh)
                &&& !frame::fits(slots, meshes, vertex_bytes, index_bytes, end + 1)
            }
        }),
    decreases meshes.len() - i,
{
    if i < meshes.len() {
        lemma_stops_at(slots, meshes, vertex_bytes, index_bytes, i + 1);
    }
}

/// Draw calls lie one behind another: the first begins at zero and each begins
/// where the one before it ends.
pub proof fn law_calls_are_contiguous<D>(
    slots: Seq<Option<D>>,
    context: EguiContext,
    meshes: Seq<ClippedMesh>,
    vertex_bytes: nat,
    index_bytes: nat,
    k: int,
)
    requires
        meshes.len() <= usize::MAX,
        0 < vertex_bytes <= usize::MAX,
        0 < index_bytes <= usize::MAX,
        0 <= k < frame_calls(slots, context, meshes, vertex_bytes, index_bytes).len(),
    ensures
        ({
            let calls = frame_calls(slots, context, meshes, vertex_bytes, index_bytes);
            &&& calls[k].vertex_start == vertex_end(calls.take(k))
            &&& calls[k].index_start == index_end(calls.take(k))
        }),
{
    let end = frame::stop(slots, meshes, vertex_bytes, index_bytes);
    laws::law_calls_are_packed(slots, context, meshes, vertex_bytes, index_bytes, end);
    let calls = frame_calls(slots, context, meshes, vertex_bytes, index_bytes);
    if k > 0 {
        assert(calls.take(k).last() == calls[k - 1]);
        assert(calls[k - 1].vertex_start + calls[k - 1].vertices_count == calls[(k - 1)
            + 1].vertex_start);
    }
}

/// The textures reported missing are those of the meshes before the end that
/// have content and lack their texture, each of them and in their order.
pub proof fn law_missing_in_order<D>(
    slots: Seq<Option<D>>,
    meshes: Seq<ClippedMesh>,
    n: nat,
) -> (at: Seq<int>)
    requires
        n <= meshes.len(),
    ensures
        ({
            let missing = frame::missing_for(slots, meshes, n);
            &&& at.len() == missing.len()
            &&& forall|k: int|
                0 <= k < at.len() ==> {
                    &&& 0 <= #[trigger] at[k] < n
                    &&& lacks_texture(slots, meshes[at[k]].mesh)
                    &&& missing[k] == meshes[at[k]].mesh.texture_id
                }
            &&& forall|k: int, l: int|
                0 <= k < l < at.len() ==> #[trigger] at[k] < #[trigger] at[l]
            &&& forall|i: int|
                0 <= i < n && lacks_texture(slots, #[trigger] meshes[i].mesh) ==> at.contains(i)
        }),
    decreases n,
{
    if n == 0 {
        Seq::empty()
    } else {
        let last = (n - 1) as nat;
        let before = law_missing_in_order(slots, meshes, last);
        let mesh = meshes[last as int].mesh;
        if frame::has_content(mesh) && !frame::has_texture(slots, mesh.texture_id) {
            let at = before.push(last as int);
            assert forall|i: int|
                0 <= i < n && lacks_texture(slots, #[trigger] meshes[i].mesh) implies at.contains(
                i,
            ) by {
                if i < last {
                    let k = choose|k: int| 0 <= k < before.len() && before[k] == i;
                    assert(at[k] == i);
                } else {
                    assert(at[before.len() as int] == i);
                }
            }
            at
        } else {
            before
        }
    }
}

/// A mesh before the end of a frame is drawn, reported for its texture, or has
/// no vertices or no indices, and only one of these.
pub proof fn law_meshes_are_accounted_for<D>(slots: Seq<Option<D>>, mesh: Mesh)
    ensures
        frame::is_drawn(slots, mesh) <==> is_visible(slots, mesh),
        frame::has_content(mesh) && !frame::has_texture(slots, mesh.texture_id) <==> lacks_texture(
            slots,
            mesh,
        ),
        is_visible(slots, mesh) || lacks_texture(slots, mesh) || mesh.vertices@.len() == 0
            || mesh.indices@.len() == 0,
        !(is_visible(slots, mesh) && lacks_texture(slots, mesh)),
{
}

/// The new buffers have room for two elements for each byte of the old ones.
/// After they are taken over, each buffer holds exactly so many elements.
pub proof fn law_growth_doubles<D>(
    slots: Seq<Option<D>>,
    meshes: Seq<ClippedMesh>,
    vertex_bytes: nat,
    index_bytes: nat,
)
    requires
        64 * vertex_bytes <= usize::MAX,
        8 * index_bytes <= usize::MAX,
    ensures
        frame::growth_for(slots, meshes, vertex_bytes, index_bytes) matches Some(growth) ==> {
            &&& growth.new_vertices_size == 2 * vertex_bytes
            &&& growth.new_indices_size == 2 * index_bytes
        },
{
}

/// A buffer is never without any bytes, and holds exactly as many elements as
/// it was asked to have room for.
pub proof fn law_buffers_hold_their_elements(count: nat)
    ensures
        renderer::buffer_bytes(count, 32) > 0,
        renderer::buffer_bytes(count, 32) / 32 == count,
        renderer::buffer_bytes(count, 4) > 0,
        renderer::buffer_bytes(count, 4) / 4 == count,
        count > 0 ==> renderer::buffer_bytes(count, 32) % 32 == 0 && renderer::buffer_bytes(
            count,
            4,
        ) % 4 == 0,
        count == 0 ==> renderer::buffer_bytes(count, 32) == 1 && renderer::buffer_bytes(count, 4)
            == 1,
{
}

/// So many vertices and indices leave room exactly if the bytes of both are
/// fewer than those of the buffers.
pub proof fn law_room(vertices: nat, indices: nat, vertex_bytes: nat, index_bytes: nat)
    ensures
        frame::leaves_room(vertices, indices, vertex_bytes, index_bytes) <==> 32 * vertices
            < vertex_bytes && 4 * indices < index_bytes,
{
}

/// Meshes can be drawn if those with content ask for slots that were given out
/// and the buffers, behind which any one mesh is to fit, and those that they
/// would grow to have sizes in bytes that are `usize`s.
pub proof fn law_ordinary_meshes_can_be_drawn<D>(
    slots: Seq<Option<D>>,
    meshes: Seq<ClippedMesh>,
    vertex_bytes: nat,
    index_bytes: nat,
)
    requires
        vertex_bytes > 0,
        index_bytes > 0,
        64 * vertex_bytes <= usize::MAX,
        8 * index_bytes <= usize::MAX,
        forall|i: int|
            #![trigger meshes[i]]
            0 <= i < meshes.len() ==> {
                let mesh = meshes[i].mesh;
                &&& vertex_bytes + 32 * mesh.vertices@.len() <= usize::MAX
                &&& index_bytes + 4 * mesh.indices@.len() <= usize::MAX
                &&& mesh.vertices@.len() > 0 && mesh.indices@.len() > 0 ==> (
                mesh.texture_id matches TextureId::User(id) ==> (id as usize) < slots.len())
            },
    ensures
        frame::is_valid_request(slots, meshes, vertex_bytes, index_bytes),
{
    let end = frame::stop(slots, meshes, vertex_bytes, index_bytes);
    frame::lemma_stop_from_reaches(slots, meshes, vertex_bytes, index_bytes, 0);
    laws::lemma_fits_before_stop(slots, meshes, vertex_bytes, index_bytes, end);
    if end < meshes.len() {
        let mesh = meshes[end as int].mesh;
        assert(vertex_bytes + 32 * mesh.vertices@.len() <= usize::MAX);
    }
}

/// Meshes can be drawn exactly if none with content, up to the one where drawing
/// stops, asks for a slot that was never given out, and the sizes that come up
/// there are `usize`s: the bytes up to the end of that mesh, of its indices only
/// if its vertices leave room, and the bytes of the larger buffers.
pub proof fn law_meshes_that_can_be_drawn<D>(
    slots: Seq<Option<D>>,
    context: EguiContext,
    meshes: Seq<ClippedMesh>,
    vertex_bytes: nat,
    index_bytes: nat,
)
    requires
        meshes.len() <= usize::MAX,
        0 < vertex_bytes <= usize::MAX,
        0 < index_bytes <= usize::MAX,
    ensures
        ({
            let end = frame::stop(slots, meshes, vertex_bytes, index_bytes);
            let calls = frame_calls(slots, context, meshes, vertex_bytes, index_bytes);
            let asks_for_no_slot = exists|i: int|
                {
                    &&& 0 <= i < meshes.len() && i <= end
                    &&& (#[trigger] meshes[i]).mesh.vertices@.len() > 0
                    &&& meshes[i].mesh.indices@.len() > 0
                    &&& meshes[i].mesh.texture_id matches TextureId::User(id) && (id as usize)
                        >= slots.len()
                };
            let vertices = vertex_end(calls) + meshes[end as int].mesh.vertices@.len();
            let indices = index_end(calls) + meshes[end as int].mesh.indices@.len();
            let sizes_fit = end < meshes.len() ==> {
                &&& 32 * vertices <= usize::MAX
                &&& indices <= usize::MAX
                &&& 32 * vertices >= vertex_bytes || 4 * indices <= usize::MAX
                &&& 64 * vertex_bytes <= usize::MAX
                &&& 8 * index_bytes <= usize::MAX
            };
            frame::is_valid_request(slots, meshes, vertex_bytes, index_bytes)
                <==> !asks_for_no_slot && sizes_fit
        }),
{
    let end = frame::stop(slots, meshes, vertex_bytes, index_bytes);
    law_frame_draws_what_fits(slots, context, meshes, vertex_bytes, index_bytes);
    laws::law_calls_are_packed(slots, context, meshes, vertex_bytes, index_bytes, end);
}

/// After a frame is copied into the buffers, the shader sees for each draw call
/// the vertices of its mesh from the start of the call on, in their order, and
/// the indices of its mesh likewise.
pub proof fn law_buffers_show_the_meshes<D>(
    slots: Seq<Option<D>>,
    context: EguiContext,
    meshes: Seq<ClippedMesh>,
    vertex_bytes: nat,
    index_bytes: nat,
    vertex_content: Seq<EguiVertex>,
    index_content: Seq<u32>,
    k: int,
    i: int,
)
    requires
        meshes.len() <= usize::MAX,
        0 < vertex_bytes <= usize::MAX,
        0 < index_bytes <= usize::MAX,
        vertex_content.len() == vertex_bytes / 32,
        index_content.len() == index_bytes / 4,
        0 <= k < frame_calls(slots, context, meshes, vertex_bytes, index_bytes).len(),
    ensures
        ({
            let calls = frame_calls(slots, context, meshes, vertex_bytes, index_bytes);
            let vertices = laws::vertices_after(vertex_content, meshes, calls, calls.len());
            let indices = laws::indices_after(index_content, meshes, calls, calls.len());
            let mesh = meshes[calls[k].mesh as int].mesh;
            &&& 0 <= i < mesh.vertices@.len() ==> mesh_laws::shows(
                vertices[calls[k].vertex_start + i],
                mesh.vertices@[i],
            )
            &&& 0 <= i < mesh.indices@.len() ==> indices[calls[k].index_start + i]
                == mesh.indices@[i]
        }),
{
    let end = frame::stop(slots, meshes, vertex_bytes, index_bytes);
    frame::lemma_stop_from_reaches(slots, meshes, vertex_bytes, index_bytes, 0);
    laws::law_buffers_hold_the_frame(
        slots,
        context,
        meshes,
        vertex_bytes,
        index_bytes,
        vertex_content,
        index_content,
        end,
    );
    law_calls_match_their_meshes(slots, context, meshes, end);
    let calls = frame_calls(slots, context, meshes, vertex_bytes, index_bytes);
    let vertices = laws::vertices_after(vertex_content, meshes, calls, calls.len());
    let indices = laws::indices_after(index_content, meshes, calls, calls.len());
    let call = calls[k];
    let mesh = meshes[call.mesh as int].mesh;
    let vertex_start = call.vertex_start as int;
    let index_start = call.index_start as int;
    if 0 <= i < mesh.vertices@.len() {
        let part = vertices.subrange(vertex_start, vertex_start + call.vertices_count);
        assert(part[i] == vertices[vertex_start + i]);
        mesh_laws::law_vertex(mesh.vertices@[i]);
    }
    if 0 <= i < mesh.indices@.len() {
        let part = indices.subrange(index_start, index_start + call.indices_count);
        assert(part[i] == indices[index_start + i]);
    }
}

/// The viewport is the framebuffer: each side is what its number of pixels rounds
/// to, exactly that number up to 2^24.
pub proof fn law_viewport(dimensions: [u32; 2], i: int)
    requires
        0 <= i < 2,
    ensures
        ({
            let side = frame::viewport_size(dimensions)[i] as nat;
            &&& rounding::rounds_to(dimensions[i] as nat * pow2(149), 1, side)
            &&& side <= 0x4f80_0000
            &&& dimensions[i] <= 0x100_0000 ==> rounding::units(side) == dimensions[i] * pow2(149)
        }),
{
    let size = dimensions[i];
    let one = float32::one();
    rounding::lemma_rounding_exists(size as nat * one, 1);
    lemma_mul_inequality(size as int, 0x1_0000_0000, one as int);
    float32::lemma_nearest_bound(size as nat * one, float32::ratio(size as nat, 1));
    if size <= 0x100_0000 {
        let code = rounding::lemma_whole_code(size as nat);
        rounding::lemma_nearest_exact(code, 1);
    }
}

/// The size of the screen in points is the size of the viewport over the scale
/// factor, rounded, with the sign of the scale factor. Infinitely many pixels in
/// a point make it zero. Without any pixels in a point it is infinite, or
/// undefined where the viewport is empty, and it is undefined if the scale
/// factor is.
pub proof fn law_screen_size(dimensions: [u32; 2], scale_factor: u32, i: int)
    requires
        0 <= i < 2,
    ensures
        ({
            let side = frame::viewport_size(dimensions)[i] as nat;
            let size = frame::point_size(dimensions, scale_factor)[i];
            let code = (size % 0x8000_0000) as nat;
            let scale = (scale_factor % 0x8000_0000) as nat;
            &&& 0 < scale < 0x7f80_0000 ==> rounding::rounds_to(
                rounding::units(side) * pow2(149),
                rounding::units(scale),
                code,
            )
            &&& scale == 0x7f80_0000 ==> code == 0
            &&& scale == 0 && side > 0 ==> code == 0x7f80_0000
            &&& scale == 0 && side == 0 ==> code > 0x7f80_0000
            &&& scale > 0x7f80_0000 ==> code > 0x7f80_0000
            &&& code <= 0x7f80_0000 ==> (size >= 0x8000_0000 <==> scale_factor >= 0x8000_0000)
        }),
{
    law_viewport(dimensions, i);
    let side = frame::viewport_size(dimensions)[i];
    assert(frame::point_size(dimensions, scale_factor)[i] == float32::quotient(side, scale_factor));
    lemma_quotient_of_side(side, scale_factor);
}

/// The quotient of a side of the viewport and a scale factor.
proof fn lemma_quotient_of_side(side: u32, scale_factor: u32)
    requires
        side <= 0x4f80_0000,
    ensures
        ({
            let size = float32::quotient(side, scale_factor);
            let code = (size % 0x8000_0000) as nat;
            let scale = (scale_factor % 0x8000_0000) as nat;
            &&& 0 < scale < 0x7f80_0000 ==> rounding::rounds_to(
                rounding::units(side as nat) * pow2(149),
                rounding::units(scale),
                code,
            )
            &&& scale == 0x7f80_0000 ==> code == 0
            &&& scale == 0 && side > 0 ==> code == 0x7f80_0000
            &&& scale == 0 && side == 0 ==> code > 0x7f80_0000
            &&& scale > 0x7f80_0000 ==> code > 0x7f80_0000
            &&& code <= 0x7f80_0000 ==> (size >= 0x8000_0000 <==> scale_factor >= 0x8000_0000)
        }),
{
    arithmetic_laws::law_quotient_of_extremes(side, scale_factor);
    let scale = (scale_factor % 0x8000_0000) as nat;
    if 0 < scale < 0x7f80_0000 {
        let n = rounding::units(side as nat) * float32::one();
        let d = rounding::units(scale);
        rounding::lemma_units_increase(0, scale);
        rounding::lemma_rounding_exists(n, d);
        let size = float32::quotient(side, scale_factor);
        assert((size % 0x8000_0000) as nat == rounding::nearest(n, d));
    }
}

/// With one pixel in a point the screen has the size of the viewport. With two,
/// twice its size in points is that of the viewport.
pub proof fn law_screen_size_at_whole_scales(dimensions: [u32; 2], i: int)
    requires
        0 <= i < 2,
    ensures
        ({
            let side = frame::viewport_size(dimensions)[i];
            let half = frame::point_size(dimensions, 0x4000_0000)[i];
            &&& frame::point_size(dimensions, 0x3f80_0000)[i] == side
            &&& 2 * rounding::units(half as nat) == rounding::units(side as nat)
        }),
{
    law_viewport(dimensions, i);
    let one = float32::one();
    let side = frame::viewport_size(dimensions)[i] as nat;
    laws::law_scale_one(side as u32);
    lemma_pow2_pos(149);
    arithmetic_laws::law_numbers(0x3f80_0000);
    let two = rounding::units(0x4000_0000);
    assert(two == 2 * one);
    let half = if side < 0x100_0000 {
        0nat
    } else {
        (side - 0x80_0000) as nat
    };
    lemma_whole_or_zero(dimensions[i], side);
    if side >= 0x100_0000 {
        arithmetic_laws::law_numbers(half);
    }
    rounding::lemma_nearest_exact(half, two);
    assert(rounding::units(side) * one == two * rounding::units(half)) by (nonlinear_arith)
        requires
            two == 2 * one,
            rounding::units(side) == 2 * rounding::units(half),
    ;
}

/// A side of the viewport is empty or at least one pixel.
proof fn lemma_whole_or_zero(size: u32, side: nat)
    requires
        rounding::rounds_to(size as nat * pow2(149), 1, side),
    ensures
        side == 0 || side >= 0x3f80_0000,
{
    let one = pow2(149);
    arithmetic_laws::law_numbers(0);
    rounding::lemma_nearest_exact(0, 1);
    rounding::lemma_nearest_exact(0x3f80_0000, 1);
    rounding::lemma_rounding_exists(size as nat * one, 1);
    rounding::lemma_rounding_unique(
        size as nat * one,
        1,
        side,
        rounding::nearest(size as nat * one, 1),
    );
    assert(rounding::units(0) == 0);
    if size > 0 {
        lemma_mul_inequality(1, size as int, one as int);
        rounding::lemma_nearest_ordered(one, size as nat * one, 1);
    } else {
        assert(0 * one == 0);
    }
}

} // verus!
