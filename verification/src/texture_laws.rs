//! What becomes of textures, slot by slot and byte by byte.

use crate::frame;
use crate::mesh::TextureId;
use crate::renderer;
use crate::texture::{self, FontImage, Texture};
use vstd::prelude::*;

verus! {

/// A user texture is held in the slot of its number, and no other texture is.
pub proof fn law_slots(a: u64, b: u64)
    requires
        a <= usize::MAX,
        b <= usize::MAX,
    ensures
        frame::slot_of(a) == a,
        frame::slot_of(a) == frame::slot_of(b) ==> a == b,
{
}

/// The font texture always exists. A user texture exists if the slot of its
/// number holds a descriptor set.
pub proof fn law_existing_textures<D>(slots: Seq<Option<D>>, id: u64)
    ensures
        frame::has_texture(slots, TextureId::Egui),
        frame::slot_in_range(slots, TextureId::Egui),
        frame::slot_in_range(slots, TextureId::User(id)) <==> (id as usize) < slots.len(),
        frame::has_texture(slots, TextureId::User(id)) <==> (id as usize) < slots.len()
            && slots[(id as usize) as int] is Some,
{
}

/// Registering fills one slot, the first that is empty, or a new one behind the
/// last if none is. No other slot changes.
pub proof fn law_register_fills_one_slot<D>(slots: Seq<Option<D>>, desc_set: D)
    ensures
        ({
            let slot = texture::free_slot(slots) as int;
            let after = texture::with_texture(slots, desc_set);
            &&& 0 <= slot < after.len()
            &&& after[slot] == Some(desc_set)
            &&& slot < slots.len() ==> slots[slot] is None && after.len() == slots.len()
            &&& slot >= slots.len() ==> slot == slots.len() && after.len() == slots.len() + 1
            &&& forall|i: int| 0 <= i < slot ==> #[trigger] slots[i] is Some
            &&& forall|i: int|
                0 <= i < slots.len() && i != slot ==> #[trigger] after[i] == slots[i]
        }),
{
    crate::laws::law_smallest_free_slot(slots);
}

/// Unregistering empties the slot of the texture and no other. The font texture
/// stays.
pub proof fn law_unregister_empties_one_slot<D>(slots: Seq<Option<D>>, id: u64)
    ensures
        texture::without_texture(slots, TextureId::Egui) == slots,
        id < slots.len() && id <= usize::MAX ==> {
            let after = texture::without_texture(slots, TextureId::User(id));
            &&& after.len() == slots.len()
            &&& after[id as int] is None
            &&& forall|i: int|
                0 <= i < slots.len() && i != id ==> #[trigger] after[i] == slots[i]
        },
{
}

/// After a texture is registered it is drawn with its own descriptor set, and
/// every texture that there was with the one it had.
pub proof fn law_registered_set<D>(
    before: renderer::EguiVulkanoRenderer<D>,
    after: renderer::EguiVulkanoRenderer<D>,
    desc_set: D,
    other: u64,
)
    requires
        before.slots().len() < usize::MAX,
        after.slots() == texture::with_texture(before.slots(), desc_set),
        after.same_but_slots(&before),
    ensures
        after.set_of(TextureId::User(texture::free_slot(before.slots()) as u64)) == desc_set,
        after.set_of(TextureId::Egui) == before.font_set(),
        other < before.slots().len() && before.slots()[other as int] is Some ==> {
            &&& after.slots()[other as int] is Some
            &&& after.set_of(TextureId::User(other)) == before.slots()[other as int]->0
        },
        after.vertex_bytes() == before.vertex_bytes(),
        after.index_bytes() == before.index_bytes(),
        after.font_version() == before.font_version(),
{
    law_register_fills_one_slot(before.slots(), desc_set);
}

/// Textures are drawn with the descriptor sets they had after the buffers grew.
pub proof fn law_growing_keeps_textures<D>(
    before: renderer::EguiVulkanoRenderer<D>,
    after: renderer::EguiVulkanoRenderer<D>,
    texture_id: TextureId,
)
    requires
        after.same_but_buffers(&before),
    ensures
        after.slots() == before.slots(),
        after.font_version() == before.font_version(),
        after.font_set() == before.font_set(),
        after.set_of(texture_id) == before.set_of(texture_id),
{
}

/// A font image has the version and the size of its texture, and four bytes for
/// each pixel, all equal to the coverage of the pixel.
pub proof fn law_font_image<'a>(image: FontImage, texture: Texture<'a>)
    requires
        texture::is_image_of(image, texture),
    ensures
        image.version == texture.version,
        image.width == texture.width,
        image.height == texture.height,
        image.data@.len() == 4 * texture.pixels@.len(),
        forall|i: int, j: int|
            0 <= i < texture.pixels@.len() && 0 <= j < 4 ==> #[trigger] image.data@[4 * i + j]
                == texture.pixels@[i],
{
}

/// A font texture is loaded if, and only if, its version is another than that
/// of the image that was taken over last.
pub proof fn law_font_is_loaded_when_it_changes<'a, 'b, D>(
    renderer: renderer::EguiVulkanoRenderer<D>,
    image: FontImage,
    loaded: Texture<'a>,
    next: Texture<'b>,
)
    requires
        texture::is_image_of(image, loaded),
        renderer.font_version() == image.version,
    ensures
        renderer.has_font(next) <==> next.version == loaded.version,
{
}

} // verus!
