//! The slots that user textures are registered in, and the font image.

use crate::frame;
use crate::mesh::TextureId;
use vstd::prelude::*;

verus! {

/// The font texture: one byte of coverage for each pixel.
#[derive(Clone, Copy, Debug)]
pub struct Texture<'a> {
    pub version: u64,
    pub width: usize,
    pub height: usize,
    pub pixels: &'a Vec<u8>,
}

/// The font texture as an image of four bytes for each pixel.
#[derive(Debug, PartialEq, Eq)]
pub struct FontImage {
    pub version: u64,
    pub width: u64,
    pub height: u64,
    pub data: Vec<u8>,
}

/// The first slot from `i` on that holds nothing, or the number of slots.
pub open spec fn free_slot_from<D>(slots: Seq<Option<D>>, i: nat) -> nat
    decreases slots.len() - i,
{
    if i >= slots.len() || slots[i as int] is None {
        i
    } else {
        free_slot_from(slots, i + 1)
    }
}

/// The slot that the next texture is registered in.
pub open spec fn free_slot<D>(slots: Seq<Option<D>>) -> nat {
    free_slot_from(slots, 0)
}

/// The slots after a texture is registered.
pub open spec fn with_texture<D>(slots: Seq<Option<D>>, desc_set: D) -> Seq<Option<D>> {
    let slot = free_slot(slots);
    if slot < slots.len() {
        slots.update(slot as int, Some(desc_set))
    } else {
        slots.push(Some(desc_set))
    }
}

/// The slots after a texture is unregistered. The font texture has no slot.
pub open spec fn without_texture<D>(
    slots: Seq<Option<D>>,
    texture_id: TextureId,
) -> Seq<Option<D>> {
    match texture_id {
        TextureId::Egui => slots,
        TextureId::User(id) => slots.update(frame::slot_of(id), None),
    }
}

/// The bytes of an image whose four components are all the same.
pub open spec fn gray_pixels(pixels: Seq<u8>) -> Seq<u8> {
    Seq::new(4 * pixels.len(), |i: int| pixels[i / 4])
}

/// Whether an image is what a font texture is loaded as.
pub open spec fn is_image_of<'a>(image: FontImage, texture: Texture<'a>) -> bool {
    &&& image.version == texture.version
    &&& image.width == texture.width
    &&& image.height == texture.height
    &&& image.data@ == gray_pixels(texture.pixels@)
}

/// Repeats each byte four times.
pub fn expand_pixels(pixels: &Vec<u8>) -> (data: Vec<u8>)
    ensures
        data@ == gray_pixels(pixels@),
{
    let mut data: Vec<u8> = Vec::new();
    let mut i: usize = 0;
    while i < pixels.len()
        invariant
            i <= pixels@.len(),
            data@ == gray_pixels(pixels@.take(i as int)),
        decreases pixels@.len() - i,
    {
        let r = pixels[i];
        data.push(r);
        data.push(r);
        data.push(r);
        data.push(r);
        i = i + 1;
    }
    assert(pixels@.take(pixels@.len() as int) == pixels@);
    data
}

} // verus!
