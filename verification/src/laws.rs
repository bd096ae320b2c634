//! What holds across calls.

use crate::arithmetic_laws;
use crate::float32;
use crate::frame::{self, DrawCall};
use crate::mesh::{self, ClippedMesh, EguiVertex, TextureId};
use crate::renderer;
use crate::rounding;
use crate::scissor::{self, EguiContext};
use crate::texture::{self, FontImage, Texture};
use vstd::arithmetic::power2::*;
use vstd::prelude::*;

verus! {

/// The slot for the next texture is free, and no smaller slot is.
pub proof fn law_smallest_free_slot<D>(slots: Seq<Option<D>>)
    ensures
        texture::free_slot(slots) <= slots.len(),
        texture::free_slot(slots) < slots.len() ==> slots[texture::free_slot(slots) as int] is None,
        forall|i: int| 0 <= i < texture::free_slot(slots) ==> #[trigger] slots[i] is Some,
{
    lemma_free_slot_from(slots, 0);
}

proof fn lemma_free_slot_from<D>(slots: Seq<Option<D>>, i: nat)
    requires
        i <= slots.len(),
    ensures
        i <= texture::free_slot_from(slots, i) <= slots.len(),
        texture::free_slot_from(slots, i) < slots.len() ==> slots[texture::free_slot_from(
            slots,
            i,
        ) as int] is None,
        forall|j: int|
            i <= j < texture::free_slot_from(slots, i) ==> #[trigger] slots[j] is Some,
    decreases slots.len() - i,
{
    if i < slots.len() && slots[i as int] is Some {
        lemma_free_slot_from(slots, i + 1);
    }
}

/// Registering a texture gives it an id that no existing texture has. The
/// texture then exists under that id, and every texture in another slot is as
/// it was.
pub proof fn law_register<D>(slots: Seq<Option<D>>, desc_set: D, other: u64)
    requires
        slots.len() < usize::MAX,
    ensures
        ({
            let id = texture::free_slot(slots) as u64;
            let slot = frame::slot_of(other);
            let after = texture::with_texture(slots, desc_set);
            &&& !frame::has_texture(slots, TextureId::User(id))
            &&& frame::has_texture(after, TextureId::User(id))
            &&& after[frame::slot_of(id)] == Some(desc_set)
            &&& slot != frame::slot_of(id) ==> {
                &&& frame::has_texture(after, TextureId::User(other)) == frame::has_texture(
                    slots,
                    TextureId::User(other),
                )
                &&& slot < slots.len() ==> after[slot] == slots[slot]
            }
        }),
{
    law_smallest_free_slot(slots);
}

/// A texture that is unregistered is not there anymore, and every texture in
/// another slot is as it was. Doing it again changes nothing.
pub proof fn law_unregister<D>(slots: Seq<Option<D>>, id: u64, other: u64)
    requires
        frame::slot_of(id) < slots.len(),
    ensures
        ({
            let slot = frame::slot_of(other);
            let after = texture::without_texture(slots, TextureId::User(id));
            &&& after.len() == slots.len()
            &&& !frame::has_texture(after, TextureId::User(id))
            &&& slot != frame::slot_of(id) ==> {
                &&& frame::has_texture(after, TextureId::User(other)) == frame::has_texture(
                    slots,
                    TextureId::User(other),
                )
                &&& slot < slots.len() ==> after[slot] == slots[slot]
            }
            &&& texture::without_texture(after, TextureId::User(id)) == after
        }),
{
}

/// After a texture is unregistered, registering another adds no slot. It gets
/// the id that became free, unless a smaller one is free as well.
pub proof fn law_unregistered_id_is_reused<D>(slots: Seq<Option<D>>, id: u64, desc_set: D)
    requires
        frame::slot_of(id) < slots.len(),
    ensures
        ({
            let after = texture::without_texture(slots, TextureId::User(id));
            &&& texture::free_slot(after) <= frame::slot_of(id)
            &&& texture::with_texture(after, desc_set).len() == slots.len()
            &&& (forall|i: int| 0 <= i < frame::slot_of(id) ==> #[trigger] slots[i] is Some)
                ==> texture::free_slot(after) == frame::slot_of(id)
        }),
{
    let after = texture::without_texture(slots, TextureId::User(id));
    law_smallest_free_slot(after);
    assert(after[frame::slot_of(id)] is None);
    if texture::free_slot(after) < frame::slot_of(id) {
        assert(after[texture::free_slot(after) as int] == slots[texture::free_slot(after) as int]);
    }
}

/// Unregistering what was just registered leaves the textures that there were.
pub proof fn law_unregister_undoes_register<D>(slots: Seq<Option<D>>, desc_set: D, other: TextureId)
    requires
        slots.len() < usize::MAX,
    ensures
        ({
            let id = TextureId::User(texture::free_slot(slots) as u64);
            let after = texture::without_texture(texture::with_texture(slots, desc_set), id);
            &&& frame::has_texture(after, other) == frame::has_texture(slots, other)
            &&& other matches TextureId::User(o) ==> frame::has_texture(slots, other)
                ==> after[frame::slot_of(o)] == slots[frame::slot_of(o)]
        }),
{
    law_smallest_free_slot(slots);
}

/// A font texture is loaded once: a renderer that took over its image has it.
pub proof fn law_font_is_loaded_once<'a, D>(
    renderer: renderer::EguiVulkanoRenderer<D>,
    texture: Texture<'a>,
    image: FontImage,
)
    requires
        texture::is_image_of(image, texture),
        renderer.font_version() == image.version,
    ensures
        renderer.has_font(texture),
{
}

/// The draw calls of a frame are those of the meshes that have content and a
/// texture, each once and in the order of the list.
pub proof fn law_calls_in_order<D>(
    slots: Seq<Option<D>>,
    context: EguiContext,
    meshes: Seq<ClippedMesh>,
    n: nat,
)
    requires
        n <= meshes.len() <= usize::MAX,
    ensures
        ({
            let calls = frame::calls_for(slots, context, meshes, n);
            &&& forall|k: int|
                0 <= k < calls.len() ==> {
                    &&& (#[trigger] calls[k]).mesh < n
                    &&& frame::is_drawn(slots, meshes[calls[k].mesh as int].mesh)
                    &&& calls[k] == frame::call_for(slots, context, meshes, calls[k].mesh as nat)
                }
            &&& forall|k: int, l: int|
                0 <= k < l < calls.len() ==> (#[trigger] calls[k]).mesh < (
                #[trigger] calls[l]).mesh
            &&& forall|i: int|
                0 <= i < n && frame::is_drawn(slots, #[trigger] meshes[i].mesh) ==> exists|k: int|
                    0 <= k < calls.len() && (#[trigger] calls[k]).mesh == i
        }),
    decreases n,
{
    if n > 0 {
        let last = (n - 1) as nat;
        law_calls_in_order(slots, context, meshes, last);
        let before = frame::calls_for(slots, context, meshes, last);
        let calls = frame::calls_for(slots, context, meshes, n);
        assert forall|i: int|
            0 <= i < n && frame::is_drawn(slots, #[trigger] meshes[i].mesh) implies exists|k: int|
            0 <= k < calls.len() && (#[trigger] calls[k]).mesh == i by {
            if i < last {
                let k = choose|k: int| 0 <= k < before.len() && (#[trigger] before[k]).mesh == i;
                assert(calls[k] == before[k]);
            } else {
                assert(calls[before.len() as int].mesh == i);
            }
        }
        assert forall|k: int| 0 <= k < calls.len() implies {
            &&& (#[trigger] calls[k]).mesh < n
            &&& frame::is_drawn(slots, meshes[calls[k].mesh as int].mesh)
            &&& calls[k] == frame::call_for(slots, context, meshes, calls[k].mesh as nat)
        } by {
            if k < before.len() {
                assert(calls[k] == before[k]);
            }
        }
        assert forall|k: int, l: int| 0 <= k < l < calls.len() implies (#[trigger] calls[k]).mesh
            < (#[trigger] calls[l]).mesh by {
            assert(calls[k] == before[k]);
            if l < before.len() {
                assert(calls[l] == before[l]);
            }
        }
    }
}

/// Where a frame has come to, everything drawn so far fits.
pub(crate) proof fn lemma_fits_before_stop<D>(
    slots: Seq<Option<D>>,
    meshes: Seq<ClippedMesh>,
    vertex_bytes: nat,
    index_bytes: nat,
    n: nat,
)
    requires
        n <= frame::stop(slots, meshes, vertex_bytes, index_bytes),
    ensures
        n <= meshes.len(),
        frame::stop_from(slots, meshes, vertex_bytes, index_bytes, n) == frame::stop(
            slots,
            meshes,
            vertex_bytes,
            index_bytes,
        ),
        vertex_bytes > 0 && index_bytes > 0 ==> frame::fits(
            slots,
            meshes,
            vertex_bytes,
            index_bytes,
            n,
        ),
    decreases n,
{
    frame::lemma_stop_from_reaches(slots, meshes, vertex_bytes, index_bytes, 0);
    if n > 0 {
        lemma_fits_before_stop(slots, meshes, vertex_bytes, index_bytes, (n - 1) as nat);
    }
}

/// The draw calls of a frame use the buffers from the start on without gap or
/// overlap, and end before the buffers do.
pub proof fn law_calls_are_packed<D>(
    slots: Seq<Option<D>>,
    context: EguiContext,
    meshes: Seq<ClippedMesh>,
    vertex_bytes: nat,
    index_bytes: nat,
    n: nat,
)
    requires
        0 < vertex_bytes <= usize::MAX,
        0 < index_bytes <= usize::MAX,
        n <= frame::stop(slots, meshes, vertex_bytes, index_bytes),
    ensures
        ({
            let calls = frame::calls_for(slots, context, meshes, n);
            &&& calls.len() > 0 ==> calls[0].vertex_start == 0 && calls[0].index_start == 0
            &&& forall|k: int|
                0 <= k < calls.len() - 1 ==> {
                    &&& (#[trigger] calls[k]).vertex_start + calls[k].vertices_count == calls[k
                        + 1].vertex_start
                    &&& calls[k].index_start + calls[k].indices_count == calls[k + 1].index_start
                }
            &&& calls.len() > 0 ==> {
                &&& calls.last().vertex_start + calls.last().vertices_count
                    == frame::vertex_offset(slots, meshes, n)
                &&& calls.last().index_start + calls.last().indices_count == frame::index_offset(
                    slots,
                    meshes,
                    n,
                )
            }
            &&& calls.len() == 0 ==> frame::vertex_offset(slots, meshes, n) == 0
                && frame::index_offset(slots, meshes, n) == 0
            &&& frame::fits(slots, meshes, vertex_bytes, index_bytes, n)
        }),
    decreases n,
{
    lemma_fits_before_stop(slots, meshes, vertex_bytes, index_bytes, n);
    if n > 0 {
        law_calls_are_packed(slots, context, meshes, vertex_bytes, index_bytes, (n - 1) as nat);
        let before = frame::calls_for(slots, context, meshes, (n - 1) as nat);
        let calls = frame::calls_for(slots, context, meshes, n);
        assert forall|k: int| 0 <= k < calls.len() - 1 implies {
            &&& (#[trigger] calls[k]).vertex_start + calls[k].vertices_count == calls[k
                + 1].vertex_start
            &&& calls[k].index_start + calls[k].indices_count == calls[k + 1].index_start
        } by {
            assert(calls[k] == before[k]);
            if k < before.len() - 1 {
                assert(calls[k + 1] == before[k + 1]);
            }
        }
        if before.len() > 0 {
            assert(calls[0] == before[0]);
        }
    }
}

/// Drawing the same meshes with larger buffers repeats every call of the frame
/// that was cut short and goes on from there. The mesh that did not fit is
/// drawn if the larger buffers leave room for it.
pub proof fn law_next_frame_continues<D>(
    slots: Seq<Option<D>>,
    context: EguiContext,
    meshes: Seq<ClippedMesh>,
    vertex_bytes: nat,
    index_bytes: nat,
    larger_vertex_bytes: nat,
    larger_index_bytes: nat,
)
    requires
        vertex_bytes <= larger_vertex_bytes,
        index_bytes <= larger_index_bytes,
    ensures
        ({
            let end = frame::stop(slots, meshes, vertex_bytes, index_bytes);
            let later = frame::stop(slots, meshes, larger_vertex_bytes, larger_index_bytes);
            &&& end <= later
            &&& frame::calls_for(slots, context, meshes, end).is_prefix_of(
                frame::calls_for(slots, context, meshes, later),
            )
            &&& frame::missing_for(slots, meshes, end).is_prefix_of(
                frame::missing_for(slots, meshes, later),
            )
            &&& end < meshes.len() && frame::fits(
                slots,
                meshes,
                larger_vertex_bytes,
                larger_index_bytes,
                end + 1,
            ) ==> end < later
        }),
{
    let end = frame::stop(slots, meshes, vertex_bytes, index_bytes);
    let later = frame::stop(slots, meshes, larger_vertex_bytes, larger_index_bytes);
    lemma_stop_grows(
        slots,
        meshes,
        vertex_bytes,
        index_bytes,
        larger_vertex_bytes,
        larger_index_bytes,
        0,
    );
    lemma_calls_extend(slots, context, meshes, end, later);
    if end < meshes.len() {
        lemma_fits_before_stop(slots, meshes, larger_vertex_bytes, larger_index_bytes, end);
        frame::lemma_stop_from_reaches(
            slots,
            meshes,
            larger_vertex_bytes,
            larger_index_bytes,
            end + 1,
        );
    }
}

proof fn lemma_stop_grows<D>(
    slots: Seq<Option<D>>,
    meshes: Seq<ClippedMesh>,
    vertex_bytes: nat,
    index_bytes: nat,
    larger_vertex_bytes: nat,
    larger_index_bytes: nat,
    i: nat,
)
    requires
        vertex_bytes <= larger_vertex_bytes,
        index_bytes <= larger_index_bytes,
        i <= meshes.len(),
    ensures
        frame::stop_from(slots, meshes, vertex_bytes, index_bytes, i) <= frame::stop_from(
            slots,
            meshes,
            larger_vertex_bytes,
            larger_index_bytes,
            i,
        ),
    decreases meshes.len() - i,
{
    if i < meshes.len() {
        lemma_stop_grows(
            slots,
            meshes,
            vertex_bytes,
            index_bytes,
            larger_vertex_bytes,
            larger_index_bytes,
            i + 1,
        );
        frame::lemma_stop_from_reaches(
            slots,
            meshes,
            larger_vertex_bytes,
            larger_index_bytes,
            i + 1,
        );
    }
}

proof fn lemma_calls_extend<D>(
    slots: Seq<Option<D>>,
    context: EguiContext,
    meshes: Seq<ClippedMesh>,
    n: nat,
    m: nat,
)
    requires
        n <= m,
    ensures
        frame::calls_for(slots, context, meshes, n).is_prefix_of(
            frame::calls_for(slots, context, meshes, m),
        ),
        frame::missing_for(slots, meshes, n).is_prefix_of(frame::missing_for(slots, meshes, m)),
    decreases m,
{
    if n < m {
        lemma_calls_extend(slots, context, meshes, n, (m - 1) as nat);
    }
}

/// A frame without new buffers draws every mesh that has content and a texture.
pub proof fn law_nothing_is_left_out<D>(
    slots: Seq<Option<D>>,
    context: EguiContext,
    meshes: Seq<ClippedMesh>,
    vertex_bytes: nat,
    index_bytes: nat,
    i: int,
)
    requires
        meshes.len() <= usize::MAX,
        frame::growth_for(slots, meshes, vertex_bytes, index_bytes) is None,
        0 <= i < meshes.len(),
        frame::is_drawn(slots, meshes[i].mesh),
    ensures
        ({
            let calls = frame::calls_for(
                slots,
                context,
                meshes,
                frame::stop(slots, meshes, vertex_bytes, index_bytes),
            );
            exists|k: int| 0 <= k < calls.len() && (#[trigger] calls[k]).mesh == i
        }),
{
    frame::lemma_stop_from_reaches(slots, meshes, vertex_bytes, index_bytes, 0);
    law_calls_in_order(
        slots,
        context,
        meshes,
        frame::stop(slots, meshes, vertex_bytes, index_bytes),
    );
}

/// The buffers that a frame that was cut short asks for can be taken over, and
/// are larger, the vertex buffer 64 times and the index buffer 8 times.
pub proof fn law_buffers_grow<D>(
    slots: Seq<Option<D>>,
    meshes: Seq<ClippedMesh>,
    vertex_bytes: nat,
    index_bytes: nat,
)
    requires
        vertex_bytes > 0,
        index_bytes > 0,
        frame::is_valid_request(slots, meshes, vertex_bytes, index_bytes),
    ensures
        frame::growth_for(slots, meshes, vertex_bytes, index_bytes) matches Some(growth) ==> {
            &&& growth.new_vertices_size * frame::VERTEX_BYTES <= usize::MAX
            &&& growth.new_indices_size * frame::INDEX_BYTES <= usize::MAX
            &&& renderer::buffer_bytes(growth.new_vertices_size as nat, frame::VERTEX_BYTES as nat)
                == 64 * vertex_bytes
            &&& renderer::buffer_bytes(growth.new_indices_size as nat, frame::INDEX_BYTES as nat)
                == 8 * index_bytes
        },
{
}

/// The vertex buffer after the first `n` draw calls copied their meshes into it.
pub open spec fn vertices_after(
    content: Seq<EguiVertex>,
    meshes: Seq<ClippedMesh>,
    calls: Seq<DrawCall>,
    n: nat,
) -> Seq<EguiVertex>
    decreases n,
{
    if n == 0 {
        content
    } else {
        let call = calls[n - 1];
        mesh::overwritten(
            vertices_after(content, meshes, calls, (n - 1) as nat),
            call.vertex_start as int,
            mesh::gpu_vertices(meshes[call.mesh as int].mesh),
        )
    }
}

/// The index buffer after the first `n` draw calls copied their meshes into it.
pub open spec fn indices_after(
    content: Seq<u32>,
    meshes: Seq<ClippedMesh>,
    calls: Seq<DrawCall>,
    n: nat,
) -> Seq<u32>
    decreases n,
{
    if n == 0 {
        content
    } else {
        let call = calls[n - 1];
        mesh::overwritten(
            indices_after(content, meshes, calls, (n - 1) as nat),
            call.index_start as int,
            meshes[call.mesh as int].mesh.indices@,
        )
    }
}

/// After all meshes of a frame are copied, each draw call finds in its part of
/// the buffers what it is to draw. Every copy stays inside the buffers, and
/// what lies behind the last part is as it was.
pub proof fn law_buffers_hold_the_frame<D>(
    slots: Seq<Option<D>>,
    context: EguiContext,
    meshes: Seq<ClippedMesh>,
    vertex_bytes: nat,
    index_bytes: nat,
    vertex_content: Seq<EguiVertex>,
    index_content: Seq<u32>,
    n: nat,
)
    requires
        meshes.len() <= usize::MAX,
        0 < vertex_bytes <= usize::MAX,
        0 < index_bytes <= usize::MAX,
        vertex_content.len() == vertex_bytes / frame::VERTEX_BYTES as nat,
        index_content.len() == index_bytes / frame::INDEX_BYTES as nat,
        n <= frame::stop(slots, meshes, vertex_bytes, index_bytes),
    ensures
        ({
            let calls = frame::calls_for(slots, context, meshes, n);
            let vertices = vertices_after(vertex_content, meshes, calls, calls.len());
            let indices = indices_after(index_content, meshes, calls, calls.len());
            let vertex_end = frame::vertex_offset(slots, meshes, n) as int;
            let index_end = frame::index_offset(slots, meshes, n) as int;
            &&& vertices.len() == vertex_content.len()
            &&& indices.len() == index_content.len()
            &&& vertex_end <= vertex_content.len()
            &&& index_end <= index_content.len()
            &&& forall|k: int|
                0 <= k < calls.len() ==> {
                    let call = #[trigger] calls[k];
                    let vertex_stop = call.vertex_start + call.vertices_count;
                    let index_stop = call.index_start + call.indices_count;
                    let mesh = meshes[call.mesh as int].mesh;
                    &&& vertex_stop <= vertex_end
                    &&& index_stop <= index_end
                    &&& vertices.subrange(call.vertex_start as int, vertex_stop)
                        == mesh::gpu_vertices(mesh)
                    &&& indices.subrange(call.index_start as int, index_stop) == mesh.indices@
                }
            &&& vertices.skip(vertex_end) == vertex_content.skip(vertex_end)
            &&& indices.skip(index_end) == index_content.skip(index_end)
        }),
    decreases n,
{
    lemma_fits_before_stop(slots, meshes, vertex_bytes, index_bytes, n);
    let calls = frame::calls_for(slots, context, meshes, n);
    if n > 0 {
        let last = (n - 1) as nat;
        law_buffers_hold_the_frame(
            slots,
            context,
            meshes,
            vertex_bytes,
            index_bytes,
            vertex_content,
            index_content,
            last,
        );
        let before = frame::calls_for(slots, context, meshes, last);
        if frame::is_drawn(slots, meshes[last as int].mesh) {
            lemma_copies_of_prefix(
                vertex_content,
                index_content,
                meshes,
                before,
                calls,
                before.len(),
            );
            let old_vertices = vertices_after(vertex_content, meshes, before, before.len());
            let old_indices = indices_after(index_content, meshes, before, before.len());
            let vertices = vertices_after(vertex_content, meshes, calls, calls.len());
            let indices = indices_after(index_content, meshes, calls, calls.len());
            let vertex_end = frame::vertex_offset(slots, meshes, n) as int;
            let index_end = frame::index_offset(slots, meshes, n) as int;
            assert forall|k: int| 0 <= k < calls.len() implies {
                let call = #[trigger] calls[k];
                let vertex_stop = call.vertex_start + call.vertices_count;
                let index_stop = call.index_start + call.indices_count;
                let mesh = meshes[call.mesh as int].mesh;
                &&& vertex_stop <= vertex_end
                &&& index_stop <= index_end
                &&& vertices.subrange(call.vertex_start as int, vertex_stop)
                    == mesh::gpu_vertices(mesh)
                &&& indices.subrange(call.index_start as int, index_stop) == mesh.indices@
            } by {
                let call = calls[k];
                if k < before.len() {
                    assert(call == before[k]);
                    assert(vertices.subrange(
                        call.vertex_start as int,
                        call.vertex_start + call.vertices_count,
                    ) == old_vertices.subrange(
                        call.vertex_start as int,
                        call.vertex_start + call.vertices_count,
                    ));
                    assert(indices.subrange(
                        call.index_start as int,
                        call.index_start + call.indices_count,
                    ) == old_indices.subrange(
                        call.index_start as int,
                        call.index_start + call.indices_count,
                    ));
                }
            }
            let old_vertex_end = frame::vertex_offset(slots, meshes, last) as int;
            let old_index_end = frame::index_offset(slots, meshes, last) as int;
            assert forall|j: int| vertex_end <= j < vertices.len() implies vertices[j]
                == vertex_content[j] by {
                assert(old_vertices[j] == old_vertices.skip(old_vertex_end)[j - old_vertex_end]);
                assert(vertex_content[j] == vertex_content.skip(old_vertex_end)[j
                    - old_vertex_end]);
            }
            assert forall|j: int| index_end <= j < indices.len() implies indices[j]
                == index_content[j] by {
                assert(old_indices[j] == old_indices.skip(old_index_end)[j - old_index_end]);
                assert(index_content[j] == index_content.skip(old_index_end)[j - old_index_end]);
            }
        }
    }
}

/// Copying depends on no draw call but those that were copied.
proof fn lemma_copies_of_prefix(
    vertex_content: Seq<EguiVertex>,
    index_content: Seq<u32>,
    meshes: Seq<ClippedMesh>,
    before: Seq<DrawCall>,
    calls: Seq<DrawCall>,
    n: nat,
)
    requires
        n <= before.len(),
        before.is_prefix_of(calls),
    ensures
        vertices_after(vertex_content, meshes, before, n) == vertices_after(
            vertex_content,
            meshes,
            calls,
            n,
        ),
        indices_after(index_content, meshes, before, n) == indices_after(
            index_content,
            meshes,
            calls,
            n,
        ),
    decreases n,
{
    if n > 0 {
        lemma_copies_of_prefix(
            vertex_content,
            index_content,
            meshes,
            before,
            calls,
            (n - 1) as nat,
        );
        assert(before[n - 1] == calls[n - 1]);
    }
}

/// The bit pattern of one.
pub open spec fn one_word() -> u32 {
    0x3f80_0000
}

proof fn lemma_one_word()
    ensures
        rounding::units(one_word() as nat) == float32::one(),
{
    arithmetic_laws::law_numbers(0);
}

/// A brighter color component stays brighter; none is black and full is one.
pub proof fn law_color_order(a: u8, b: u8)
    ensures
        mesh::normalized(0) == 0,
        mesh::normalized(255) == one_word(),
        a < b ==> mesh::normalized(a) < mesh::normalized(b),
{
    let one = float32::one();
    lemma_one_word();
    rounding::lemma_nearest_exact(0, 255);
    rounding::lemma_nearest_exact(one_word() as nat, 255);
    assert(0 * one == 0 && 255 * 0 == 0);
    if a < b {
        let low = a as nat * one;
        let high = b as nat * one;
        vstd::arithmetic::mul::lemma_mul_inequality(a as int, b as int, one as int);
        vstd::arithmetic::mul::lemma_mul_inequality(b as int, 255, one as int);
        rounding::lemma_nearest_ordered(low, high, 255);
        rounding::lemma_nearest_ordered(high, 255 * one, 255);
        rounding::lemma_rounding_exists(low, 255);
        rounding::lemma_rounding_exists(high, 255);
        let code = rounding::nearest(low, 255);
        if code == rounding::nearest(high, 255) {
            // Neighbouring codes are closer than neighbouring components.
            lemma2_to64();
            lemma_pow2_adds(23, 126);
            lemma_pow2_pos(126);
            assert(high >= low + one) by (nonlinear_arith)
                requires
                    b >= a + 1,
                    low == a * one,
                    high == b * one,
                    one >= 0,
            ;
            rounding::lemma_units_gap(code, 126);
            if code > 0 {
                rounding::lemma_units_gap((code - 1) as nat, 126);
                assert(2 * low >= 255 * (rounding::units((code - 1) as nat) + rounding::units(
                    code,
                )));
            }
            assert(2 * high <= 255 * (rounding::units(code) + rounding::units(code + 1)));
            assert(one > 255 * pow2(126)) by (nonlinear_arith)
                requires
                    one == 0x80_0000 * pow2(126),
                    pow2(126) > 0,
            ;
        }
    }
}

/// At scale one a position in points is a position in pixels, and the size of
/// the framebuffer in points is its size in pixels.
pub proof fn law_scale_one(word: u32)
    requires
        !float32::is_nan(word),
    ensures
        float32::product(word, one_word()) == word,
        float32::quotient(word, one_word()) == word,
{
    let code = float32::code_of(word);
    lemma_one_word();
    lemma_pow2_pos(149);
    rounding::lemma_nearest_exact(code, float32::one());
    vstd::arithmetic::mul::lemma_mul_is_commutative(
        rounding::units(code) as int,
        float32::one() as int,
    );
}

/// A window edge of a side up to 2^24 pixels is where the side ends.
proof fn lemma_edge_exact(size: u32)
    requires
        size <= 0x100_0000,
    ensures
        rounding::units(scissor::edge(size)) == size * float32::one(),
        scissor::edge(size) <= 151 * rounding::binade(),
{
    let code = rounding::lemma_whole_code(size as nat);
    rounding::lemma_nearest_exact(code, 1);
}

/// A smaller code does not round to a larger whole number.
proof fn lemma_rounded_ordered(a: nat, b: nat)
    requires
        a <= b,
    ensures
        float32::rounded(a) <= float32::rounded(b),
{
    lemma_pow2_pos(149);
    if a < b {
        rounding::lemma_units_increase(a, b);
    }
    vstd::arithmetic::div_mod::lemma_div_is_ordered(
        (2 * rounding::units(a) + float32::one()) as int,
        (2 * rounding::units(b) + float32::one()) as int,
        2 * float32::one() as int,
    );
}

/// How far a number is from what it rounds to.
proof fn lemma_rounded_bounds(code: nat)
    ensures
        2 * (float32::rounded(code) * float32::one()) <= 2 * rounding::units(code) + float32::one(),
        2 * rounding::units(code) < 2 * (float32::rounded(code) * float32::one()) + float32::one(),
{
    arithmetic_laws::law_rounded_is_closest_whole(code);
}

/// A clipped side begins and ends inside the window. In a window of more than
/// 2^23 + 1 pixels its length may be rounded up over the edge.
pub proof fn law_clip_inside_window(min: u32, max: u32, scale: u32, size: u32)
    requires
        size <= 0x80_0001,
    ensures
        scissor::clip_origin(min, scale, size) + scissor::clip_length(min, max, scale, size)
            <= size,
{
    let one = float32::one();
    lemma2_to64();
    lemma_pow2_pos(149);
    lemma_edge_exact(size);
    let edge = scissor::edge(size);
    let start = scissor::clip_start(min, scale, size);
    let end = scissor::clip_end(min, max, scale, size);
    let first = float32::rounded(start);
    let last = float32::rounded(end);
    assert(float32::rounded(edge) == size) by {
        lemma_rounded_bounds(edge);
        let w = float32::rounded(edge);
        assert(w == size) by (nonlinear_arith)
            requires
                2 * (w * one) <= 2 * (size * one) + one,
                2 * (size * one) < 2 * (w * one) + one,
                one > 0,
        ;
    }
    lemma_rounded_ordered(start, edge);
    lemma_rounded_ordered(start, end);
    lemma_rounded_ordered(end, edge);
    lemma_rounded_bounds(start);
    lemma_excess_bounded(last, start, first);
}

/// The whole part of what is left from a start to a rounded end does not reach
/// beyond the end when it is counted from the rounded start.
proof fn lemma_excess_bounded(last: nat, start: nat, first: nat)
    requires
        first <= last <= 0x80_0001,
        first == float32::rounded(start),
    ensures
        first + float32::truncated(float32::excess(last, start)) <= last,
{
    let one = float32::one();
    lemma2_to64();
    lemma_pow2_pos(149);
    lemma_pow2_unfold(149);
    lemma_rounded_bounds(start);
    if rounding::units(start) < last * one {
        let n = (last * one - rounding::units(start)) as nat;
        let code = float32::excess(last, start);
        let length = float32::truncated(code);
        rounding::lemma_rounding_exists(n, 1);
        if first + length > last {
            let k = (last + 1 - first) as nat;
            let limit = rounding::lemma_whole_code(k);
            vstd::arithmetic::div_mod::lemma_fundamental_div_mod(
                rounding::units(code) as int,
                one as int,
            );
            assert(rounding::units(code) >= k * one) by (nonlinear_arith)
                requires
                    rounding::units(code) >= one * length,
                    length >= k,
                    one > 0,
            ;
            if code < limit {
                rounding::lemma_units_increase(code, limit);
            }
            assert(k * one == last * one + one - first * one) by (nonlinear_arith)
                requires
                    k == last + 1 - first,
            ;
            assert(limit > 0) by {
                assert(k * one > 0) by (nonlinear_arith)
                    requires
                        k > 0,
                        one > 0,
                ;
            }
            let below = (limit - 1) as nat;
            if limit < code {
                rounding::lemma_units_increase(below, (code - 1) as nat);
            }
            if first == 0 {
                vstd::arithmetic::mul::lemma_mul_basics(one as int);
                rounding::lemma_units_gap(below, 149);
            } else if k <= 0x80_0000 {
                lemma_code_bound(limit, k);
                rounding::lemma_units_gap(below, 148);
            } else {
                // Halfway between two whole numbers rounds to the even one.
                assert(limit % 2 == 1);
                rounding::lemma_units_gap(below, 149);
            }
        }
    } else {
        assert(float32::truncated(0) == 0) by {
            vstd::arithmetic::div_mod::lemma_basic_div(0, one as int);
        }
    }
}

/// The code of a whole number up to 2^23.
proof fn lemma_code_bound(code: nat, whole: nat)
    requires
        rounding::units(code) == whole * float32::one(),
        whole <= 0x80_0000,
    ensures
        code <= 150 * rounding::binade(),
{
    if code > 150 * rounding::binade() {
        rounding::lemma_units_of(149, rounding::binade());
        rounding::lemma_units_increase(150 * rounding::binade(), code);
        vstd::arithmetic::mul::lemma_mul_inequality(
            whole as int,
            0x80_0000,
            float32::one() as int,
        );
    }
}

/// A side without bounds, in a window of up to 2^24 pixels and at a positive
/// scale, is the whole side of the window.
pub proof fn law_unbounded_clip_is_whole_window(scale: u32, size: u32)
    requires
        0 < scale <= rounding::INFINITY,
        size <= 0x100_0000,
    ensures
        ({
            let min = float32::signed(true, rounding::INFINITY as nat);
            let max = rounding::INFINITY;
            &&& scissor::clip_origin(min, scale, size) == 0
            &&& scissor::clip_length(min, max, scale, size) == size
        }),
{
    let one = float32::one();
    lemma_pow2_pos(149);
    lemma_edge_exact(size);
    let edge = scissor::edge(size);
    lemma_rounded_bounds(0);
    lemma_rounded_bounds(edge);
    let w = float32::rounded(edge);
    assert(w == size) by (nonlinear_arith)
        requires
            2 * (w * one) <= 2 * (size * one) + one,
            2 * (size * one) < 2 * (w * one) + one,
            one > 0,
    ;
    let zero = float32::rounded(0);
    assert(zero == 0) by (nonlinear_arith)
        requires
            2 * (zero * one) <= one,
            one > 0,
            zero >= 0,
    ;
    rounding::lemma_nearest_exact(edge, 1);
    if size > 0 {
        assert(size * one > 0) by (nonlinear_arith)
            requires
                size > 0,
                one > 0,
        ;
    } else {
        assert(0 * one == 0);
    }
    assert(float32::truncated(edge) == size) by {
        vstd::arithmetic::div_mod::lemma_div_multiples_vanish(size as int, one as int);
        vstd::arithmetic::mul::lemma_mul_is_commutative(size as int, one as int);
    }
    assert(float32::truncated(0) == 0) by {
        vstd::arithmetic::div_mod::lemma_basic_div(0, one as int);
    }
}

} // verus!
