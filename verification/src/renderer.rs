//! The renderer: its textures, its buffers, and the frames it draws.

use crate::float32;
use crate::frame::{self, DrawCall, Frame, Growth, INDEX_BYTES, VERTEX_BYTES};
use crate::frame_laws;
use crate::mesh::{self, ClippedMesh, EguiVertex, Mesh, TextureId};
use crate::mesh_laws;
use crate::rounding;
use crate::scissor::{self, EguiContext, Rect, Scissor};
use crate::texture::{self, FontImage, Texture};
use crate::texture_laws;
use vstd::arithmetic::power2::*;
use vstd::prelude::*;

verus! {

/// The number of vertices that the first vertex buffer has room for.
pub const VERTEX_BUFFER_SIZE: usize = 0x40_0000;

/// The number of indices that the first index buffer has room for.
pub const INDEX_BUFFER_SIZE: usize = 0x20_0000;

/// The size in bytes of a buffer for `count` elements of `size` bytes. There
/// is no buffer without any bytes.
pub open spec fn buffer_bytes(count: nat, size: nat) -> nat {
    if count * size == 0 {
        1
    } else {
        count * size
    }
}

/// The sizes of the buffers in bytes.
struct Buffers {
    vertex_bytes: usize,
    index_bytes: usize,
}

impl Buffers {
    /// No buffer is without any bytes.
    #[verifier::type_invariant]
    spec fn are_there(self) -> bool {
        self.vertex_bytes > 0 && self.index_bytes > 0
    }
}

/// What the sizes of a framebuffer are in pixels and in points.
proof fn lemma_frame_sizes(
    dimensions: [u32; 2],
    scale_factor: u32,
    viewport: [u32; 2],
    screen_size: [u32; 2],
)
    requires
        viewport[0] == frame::viewport_size(dimensions)[0],
        viewport[1] == frame::viewport_size(dimensions)[1],
        screen_size[0] == frame::point_size(dimensions, scale_factor)[0],
        screen_size[1] == frame::point_size(dimensions, scale_factor)[1],
    ensures
        viewport == frame::viewport_size(dimensions),
        screen_size == frame::point_size(dimensions, scale_factor),
        forall|i: int|
            0 <= i < 2 ==> rounding::rounds_to(
                dimensions[i] as nat * pow2(149),
                1,
                #[trigger] viewport[i] as nat,
            ),
        0 < scale_factor < 0x7f80_0000 ==> forall|i: int|
            0 <= i < 2 ==> rounding::rounds_to(
                rounding::units(viewport[i] as nat) * pow2(149),
                rounding::units(scale_factor as nat),
                #[trigger] screen_size[i] as nat,
            ),
        scale_factor == 0x3f80_0000 ==> screen_size == viewport,
{
    assert(viewport =~= frame::viewport_size(dimensions));
    assert(screen_size =~= frame::point_size(dimensions, scale_factor));
    assert forall|i: int| 0 <= i < 2 implies rounding::rounds_to(
        dimensions[i] as nat * pow2(149),
        1,
        #[trigger] viewport[i] as nat,
    ) by {
        frame_laws::law_viewport(dimensions, i);
    }
    if 0 < scale_factor < 0x7f80_0000 {
        assert forall|i: int| 0 <= i < 2 implies rounding::rounds_to(
            rounding::units(viewport[i] as nat) * pow2(149),
            rounding::units(scale_factor as nat),
            #[trigger] screen_size[i] as nat,
        ) by {
            frame_laws::law_screen_size(dimensions, scale_factor, i);
        }
    }
    if scale_factor == 0x3f80_0000 {
        frame_laws::law_screen_size_at_whole_scales(dimensions, 0);
        frame_laws::law_screen_size_at_whole_scales(dimensions, 1);
        assert(screen_size =~= viewport);
    }
}

/// The state of a renderer; `D` is the type of its descriptor sets.
pub struct EguiVulkanoRenderer<D> {
    buffers: Buffers,
    egui_texture_version: u64,
    egui_texture_desc_set: D,
    user_texture_desc_sets: Vec<Option<D>>,
}

impl<D> EguiVulkanoRenderer<D> {
    /// The size of the vertex buffer in bytes.
    pub closed spec fn vertex_bytes(&self) -> nat {
        self.buffers.vertex_bytes as nat
    }

    /// The size of the index buffer in bytes.
    pub closed spec fn index_bytes(&self) -> nat {
        self.buffers.index_bytes as nat
    }

    /// The version of the font texture that was loaded last.
    pub closed spec fn font_version(&self) -> u64 {
        self.egui_texture_version
    }

    /// The descriptor set of the font texture.
    pub closed spec fn font_set(&self) -> D {
        self.egui_texture_desc_set
    }

    /// Whether a font texture is the one that was loaded last.
    pub open spec fn has_font<'a>(&self, texture: Texture<'a>) -> bool {
        texture.version == self.font_version()
    }

    /// The slots for user textures.
    pub closed spec fn slots(&self) -> Seq<Option<D>> {
        self.user_texture_desc_sets@
    }

    /// The descriptor set of a texture that exists.
    pub open spec fn set_of(&self, texture_id: TextureId) -> D {
        match texture_id {
            TextureId::Egui => self.font_set(),
            TextureId::User(id) => self.slots()[frame::slot_of(id)]->0,
        }
    }

    /// Whether nothing but the slots differs.
    pub open spec fn same_but_slots(&self, other: &Self) -> bool {
        &&& self.vertex_bytes() == other.vertex_bytes()
        &&& self.index_bytes() == other.index_bytes()
        &&& self.font_version() == other.font_version()
        &&& self.font_set() == other.font_set()
    }

    /// Whether nothing but the sizes of the buffers differs.
    pub open spec fn same_but_buffers(&self, other: &Self) -> bool {
        &&& self.slots() == other.slots()
        &&& self.font_version() == other.font_version()
        &&& self.font_set() == other.font_set()
    }

    /// A renderer with buffers of the first sizes, without user textures, whose
    /// font texture is a placeholder that the first font image replaces.
    pub fn new(font_desc_set: D) -> (renderer: Self)
        ensures
            renderer.vertex_bytes() == buffer_bytes(
                VERTEX_BUFFER_SIZE as nat,
                VERTEX_BYTES as nat,
            ),
            renderer.index_bytes() == buffer_bytes(INDEX_BUFFER_SIZE as nat, INDEX_BYTES as nat),
            renderer.font_version() == 0,
            renderer.font_set() == font_desc_set,
            renderer.slots() == Seq::<Option<D>>::empty(),
            renderer.vertex_bytes() == 0x800_0000,
            renderer.index_bytes() == 0x80_0000,
    {
        EguiVulkanoRenderer {
            buffers: Buffers {
                vertex_bytes: VERTEX_BUFFER_SIZE * VERTEX_BYTES,
                index_bytes: INDEX_BUFFER_SIZE * INDEX_BYTES,
            },
            egui_texture_version: 0,
            egui_texture_desc_set: font_desc_set,
            user_texture_desc_sets: Vec::new(),
        }
    }

    /// The size of the vertex buffer in bytes.
    pub fn vertex_buffer_size(&self) -> (size: usize)
        ensures
            size == self.vertex_bytes(),
            size > 0,
    {
        proof {
            use_type_invariant(&self.buffers);
        }
        self.buffers.vertex_bytes
    }

    /// The size of the index buffer in bytes.
    pub fn index_buffer_size(&self) -> (size: usize)
        ensures
            size == self.index_bytes(),
            size > 0,
    {
        proof {
            use_type_invariant(&self.buffers);
        }
        self.buffers.index_bytes
    }

    /// The number of slots for user textures.
    pub fn slot_count(&self) -> (count: usize)
        ensures
            count == self.slots().len(),
    {
        self.user_texture_desc_sets.len()
    }

    /// Registers a user texture. The id of one that was unregistered is given
    /// out again, the smallest such id first.
    pub fn register_user_image(&mut self, desc_set: D) -> (texture_id: TextureId)
        ensures
            texture_id == TextureId::User(texture::free_slot(old(self).slots()) as u64),
            final(self).slots() == texture::with_texture(old(self).slots(), desc_set),
            final(self).same_but_slots(old(self)),
            texture_id matches TextureId::User(id) && {
                let before = old(self).slots();
                let after = final(self).slots();
                &&& id <= before.len()
                &&& id < before.len() ==> before[id as int] is None
                &&& forall|i: int| 0 <= i < id ==> #[trigger] before[i] is Some
                &&& after.len() == if id < before.len() {
                    before.len()
                } else {
                    before.len() + 1
                }
                &&& after[id as int] == Some(desc_set)
                &&& forall|i: int|
                    0 <= i < before.len() && i != id ==> #[trigger] after[i] == before[i]
            },
            final(self).vertex_bytes() == old(self).vertex_bytes(),
            final(self).index_bytes() == old(self).index_bytes(),
            final(self).font_version() == old(self).font_version(),
            final(self).font_set() == old(self).font_set(),
    {
        let mut i: usize = 0;
        while i < self.user_texture_desc_sets.len() && self.user_texture_desc_sets[i].is_some()
            invariant
                i <= self.user_texture_desc_sets@.len(),
                *self == *old(self),
                texture::free_slot_from(self.slots(), i as nat) == texture::free_slot(self.slots()),
            decreases self.user_texture_desc_sets@.len() - i,
        {
            i = i + 1;
        }
        proof {
            texture_laws::law_register_fills_one_slot(self.slots(), desc_set);
        }
        if i == self.user_texture_desc_sets.len() {
            self.user_texture_desc_sets.push(Some(desc_set));
        } else {
            self.user_texture_desc_sets[i] = Some(desc_set);
        }
        TextureId::User(i as u64)
    }

    /// Unregisters a user texture.
    pub fn unregister_user_image(&mut self, texture_id: TextureId)
        requires
            frame::slot_in_range(old(self).slots(), texture_id),
        ensures
            final(self).slots() == texture::without_texture(old(self).slots(), texture_id),
            final(self).same_but_slots(old(self)),
            final(self).slots().len() == old(self).slots().len(),
            texture_id matches TextureId::User(id) ==> final(self).slots()[(
            id as usize) as int] is None,
            forall|i: int|
                0 <= i < old(self).slots().len() && texture_id != TextureId::Egui && (
                texture_id matches TextureId::User(id) ==> i != id as usize)
                    ==> #[trigger] final(self).slots()[i] == old(self).slots()[i],
            texture_id == TextureId::Egui ==> final(self).slots() == old(self).slots(),
            final(self).vertex_bytes() == old(self).vertex_bytes(),
            final(self).index_bytes() == old(self).index_bytes(),
            final(self).font_version() == old(self).font_version(),
            final(self).font_set() == old(self).font_set(),
    {
        if let TextureId::User(id) = texture_id {
            if self.user_texture_desc_sets[id as usize].is_some() {
                self.user_texture_desc_sets[id as usize] = None;
            }
        }
    }

    /// The image to load for a font texture, if it is another version than the
    /// one that was loaded last.
    pub fn update_font_texture<'a>(&self, texture: &Texture<'a>) -> (image: Option<FontImage>)
        ensures
            image is None <==> self.has_font(*texture),
            image matches Some(image) ==> texture::is_image_of(image, *texture),
            image is None <==> texture.version == self.font_version(),
            image matches Some(image) ==> {
                &&& image.version == texture.version
                &&& image.width == texture.width
                &&& image.height == texture.height
                &&& image.data@.len() == 4 * texture.pixels@.len()
                &&& forall|i: int, j: int|
                    0 <= i < texture.pixels@.len() && 0 <= j < 4 ==> #[trigger] image.data@[4 * i
                        + j] == texture.pixels@[i]
            },
    {
        if texture.version == self.egui_texture_version {
            return None;
        }
        Some(
            FontImage {
                version: texture.version,
                width: texture.width as u64,
                height: texture.height as u64,
                data: texture::expand_pixels(texture.pixels),
            },
        )
    }

    /// Takes over a font image that was loaded.
    pub fn set_font_image(&mut self, image: &FontImage, desc_set: D)
        ensures
            final(self).font_version() == image.version,
            final(self).font_set() == desc_set,
            final(self).slots() == old(self).slots(),
            final(self).vertex_bytes() == old(self).vertex_bytes(),
            final(self).index_bytes() == old(self).index_bytes(),
    {
        self.egui_texture_version = image.version;
        self.egui_texture_desc_set = desc_set;
    }

    /// The scissor box of a clip rectangle.
    pub fn get_rect_scissor(&self, egui_context: &EguiContext, rect: Rect) -> (result: Scissor)
        ensures
            result == scissor::rect_scissor(*egui_context, rect),
    {
        let scale = egui_context.scale_factor;
        let (x, width) = scissor::clip_side(
            rect.min.x,
            rect.max.x,
            scale,
            egui_context.physical_width,
        );
        let (y, height) = scissor::clip_side(
            rect.min.y,
            rect.max.y,
            scale,
            egui_context.physical_height,
        );
        Scissor { origin: [x, y], dimensions: [width, height] }
    }

    /// Takes over buffers with room for these numbers of elements.
    pub fn resize_allocations(&mut self, new_vertices_size: usize, new_indices_size: usize)
        requires
            new_vertices_size * VERTEX_BYTES <= usize::MAX,
            new_indices_size * INDEX_BYTES <= usize::MAX,
        ensures
            final(self).vertex_bytes() == buffer_bytes(
                new_vertices_size as nat,
                VERTEX_BYTES as nat,
            ),
            final(self).index_bytes() == buffer_bytes(new_indices_size as nat, INDEX_BYTES as nat),
            final(self).same_but_buffers(old(self)),
            new_vertices_size > 0 ==> final(self).vertex_bytes() == 32 * new_vertices_size,
            new_vertices_size == 0 ==> final(self).vertex_bytes() == 1,
            new_indices_size > 0 ==> final(self).index_bytes() == 4 * new_indices_size,
            new_indices_size == 0 ==> final(self).index_bytes() == 1,
            final(self).slots() == old(self).slots(),
            final(self).font_version() == old(self).font_version(),
            final(self).font_set() == old(self).font_set(),
    {
        let vertex_bytes = new_vertices_size * VERTEX_BYTES;
        let index_bytes = new_indices_size * INDEX_BYTES;
        self.buffers = Buffers {
            vertex_bytes: if vertex_bytes == 0 {
                1
            } else {
                vertex_bytes
            },
            index_bytes: if index_bytes == 0 {
                1
            } else {
                index_bytes
            },
        };
    }

    /// Writes the vertices of a mesh into a buffer, from `vertex_start` on, and its
    /// indices into another, from `index_start` on.
    pub fn copy_mesh(
        &self,
        mesh: &Mesh,
        vertex_start: usize,
        index_start: usize,
        vertex_content: &mut [EguiVertex],
        index_content: &mut [u32],
    )
        requires
            mesh.vertices@.len() > 0 ==> vertex_start + mesh.vertices@.len() <= old(
                vertex_content,
            )@.len(),
            mesh.indices@.len() > 0 ==> index_start + mesh.indices@.len() <= old(
                index_content,
            )@.len(),
        ensures
            final(vertex_content)@ == mesh::overwritten(
                old(vertex_content)@,
                vertex_start as int,
                mesh::gpu_vertices(*mesh),
            ),
            final(index_content)@ == mesh::overwritten(
                old(index_content)@,
                index_start as int,
                mesh.indices@,
            ),
            final(vertex_content)@.len() == old(vertex_content)@.len(),
            final(index_content)@.len() == old(index_content)@.len(),
            forall|i: int|
                0 <= i < mesh.vertices@.len() ==> {
                    let vertex = #[trigger] mesh.vertices@[i];
                    let copy = final(vertex_content)@[vertex_start + i];
                    &&& copy.position == [vertex.pos.x, vertex.pos.y]
                    &&& copy.tex_coords == [vertex.uv.x, vertex.uv.y]
                    &&& forall|j: int|
                        0 <= j < 4 ==> rounding::rounds_to(
                            vertex.color[j] as nat * pow2(149),
                            255,
                            #[trigger] copy.color[j] as nat,
                        )
                },
            forall|i: int|
                0 <= i < mesh.indices@.len() ==> final(index_content)@[index_start + i]
                    == #[trigger] mesh.indices@[i],
            forall|i: int|
                0 <= i < old(vertex_content)@.len() && (i < vertex_start || i >= vertex_start
                    + mesh.vertices@.len()) ==> #[trigger] final(vertex_content)@[i] == old(
                    vertex_content,
                )@[i],
            forall|i: int|
                0 <= i < old(index_content)@.len() && (i < index_start || i >= index_start
                    + mesh.indices@.len()) ==> #[trigger] final(index_content)@[i] == old(
                    index_content,
                )@[i],
    {
        let vertex_capacity = vertex_content.len();
        let index_capacity = index_content.len();
        let mut i: usize = 0;
        while i < mesh.vertices.len()
            invariant
                i <= mesh.vertices@.len(),
                mesh.vertices@.len() > 0 ==> vertex_start + mesh.vertices@.len()
                    <= vertex_capacity,
                vertex_capacity == old(vertex_content)@.len(),
                vertex_content@ == mesh::overwritten(
                    old(vertex_content)@,
                    vertex_start as int,
                    mesh::gpu_vertices(*mesh).take(i as int),
                ),
            decreases mesh.vertices@.len() - i,
        {
            vertex_content[vertex_start + i] = EguiVertex::from_vertex(&mesh.vertices[i]);
            i = i + 1;
        }
        i = 0;
        while i < mesh.indices.len()
            invariant
                i <= mesh.indices@.len(),
                mesh.indices@.len() > 0 ==> index_start + mesh.indices@.len() <= index_capacity,
                index_capacity == old(index_content)@.len(),
                index_content@ == mesh::overwritten(
                    old(index_content)@,
                    index_start as int,
                    mesh.indices@.take(i as int),
                ),
            decreases mesh.indices@.len() - i,
        {
            index_content[index_start + i] = mesh.indices[i];
            i = i + 1;
        }
        assert(mesh::gpu_vertices(*mesh).take(mesh.vertices@.len() as int) == mesh::gpu_vertices(
            *mesh,
        ));
        assert(mesh.indices@.take(mesh.indices@.len() as int) == mesh.indices@);
        proof {
            assert forall|i: int| 0 <= i < mesh.vertices@.len() implies mesh_laws::shows(
                vertex_content@[vertex_start + i],
                #[trigger] mesh.vertices@[i],
            ) by {
                mesh_laws::law_vertex(mesh.vertices@[i]);
            }
        }
    }

    /// Whether buffers that end at these elements would not leave room.
    pub fn resize_needed(&self, vertex_end: usize, index_end: usize) -> (needed: bool)
        requires
            vertex_end * VERTEX_BYTES <= usize::MAX,
            vertex_end * VERTEX_BYTES < self.vertex_bytes() ==> index_end * INDEX_BYTES
                <= usize::MAX,
        ensures
            needed == !frame::leaves_room(
                vertex_end as nat,
                index_end as nat,
                self.vertex_bytes(),
                self.index_bytes(),
            ),
            needed <==> 32 * vertex_end >= self.vertex_bytes() || 4 * index_end
                >= self.index_bytes(),
    {
        vertex_end * VERTEX_BYTES >= self.buffers.vertex_bytes || index_end * INDEX_BYTES
            >= self.buffers.index_bytes
    }

    /// The descriptor set to draw a texture with, if the texture exists.
    pub fn desc_set(&self, texture_id: TextureId) -> (desc_set: Option<&D>)
        ensures
            desc_set is Some <==> frame::has_texture(self.slots(), texture_id),
            desc_set matches Some(desc_set) ==> *desc_set == self.set_of(texture_id),
            match texture_id {
                TextureId::Egui => desc_set matches Some(set) && *set == self.font_set(),
                TextureId::User(id) => match desc_set {
                    Some(set) => (id as usize) < self.slots().len() && self.slots()[(
                    id as usize) as int] == Some(*set),
                    None => (id as usize) < self.slots().len() ==> self.slots()[(
                    id as usize) as int] is None,
                },
            },
    {
        match texture_id {
            TextureId::Egui => Some(&self.egui_texture_desc_set),
            TextureId::User(id) => {
                if id as usize >= self.user_texture_desc_sets.len() {
                    None
                } else {
                    self.user_texture_desc_sets[id as usize].as_ref()
                }
            },
        }
    }

    /// Whether a list of meshes can be drawn: the sizes in bytes that come up are
    /// `usize`s, and no mesh asks for a slot that was never given out.
    pub fn can_draw(&self, clipped_meshes: &Vec<ClippedMesh>) -> (valid: bool)
        ensures
            valid == frame::is_valid_request(
                self.slots(),
                clipped_meshes@,
                self.vertex_bytes(),
                self.index_bytes(),
            ),
    {
        let ghost slots = self.slots();
        let ghost meshes = clipped_meshes@;
        let ghost stop = frame::stop(slots, meshes, self.vertex_bytes(), self.index_bytes());
        let mut vertex_start: u128 = 0;
        let mut index_start: u128 = 0;
        let mut i: usize = 0;
        while i < clipped_meshes.len()
            invariant
                i <= clipped_meshes@.len(),
                slots == self.slots(),
                meshes == clipped_meshes@,
                vertex_start == frame::vertex_offset(slots, meshes, i as nat),
                index_start == frame::index_offset(slots, meshes, i as nat),
                vertex_start <= usize::MAX,
                index_start <= usize::MAX,
                stop == frame::stop(slots, meshes, self.vertex_bytes(), self.index_bytes()),
                stop == frame::stop_from(
                    slots,
                    meshes,
                    self.vertex_bytes(),
                    self.index_bytes(),
                    i as nat,
                ),
                forall|j: int|
                    0 <= j < i && frame::has_content(#[trigger] meshes[j].mesh)
                        ==> frame::slot_in_range(slots, meshes[j].mesh.texture_id),
            decreases clipped_meshes@.len() - i,
        {
            let mesh = &clipped_meshes[i].mesh;
            proof {
                frame::lemma_stop_from_reaches(
                    slots,
                    meshes,
                    self.vertex_bytes(),
                    self.index_bytes(),
                    i as nat,
                );
                assert(meshes[i as int].mesh == *mesh);
            }
            if mesh.vertices.len() == 0 || mesh.indices.len() == 0 {
                i = i + 1;
                continue ;
            }
            if let TextureId::User(id) = mesh.texture_id {
                if id as usize >= self.user_texture_desc_sets.len() {
                    return false;
                }
                if self.user_texture_desc_sets[id as usize].is_none() {
                    i = i + 1;
                    continue ;
                }
            }
            let limit = usize::MAX as u128;
            let vertex_end: u128 = vertex_start + mesh.vertices.len() as u128;
            let index_end: u128 = index_start + mesh.indices.len() as u128;
            assert(usize::MAX <= 0xffff_ffff_ffff_ffff);
            assert(vertex_end * VERTEX_BYTES <= 0x40_0000_0000_0000_0000 && index_end * INDEX_BYTES
                <= 0x40_0000_0000_0000_0000) by (nonlinear_arith)
                requires
                    vertex_end <= 0x1_ffff_ffff_ffff_fffe,
                    index_end <= 0x1_ffff_ffff_ffff_fffe,
                    VERTEX_BYTES == 32,
                    INDEX_BYTES == 4,
            ;
            let vertex_full = vertex_end * VERTEX_BYTES as u128
                >= self.buffers.vertex_bytes as u128;
            let index_full = index_end * INDEX_BYTES as u128 >= self.buffers.index_bytes as u128;
            if vertex_full || index_full {
                return vertex_end * VERTEX_BYTES as u128 <= limit && index_end <= limit && (
                vertex_full || index_end * INDEX_BYTES as u128 <= limit) && 2
                    * self.buffers.vertex_bytes as u128 * VERTEX_BYTES as u128 <= limit && 2
                    * self.buffers.index_bytes as u128 * INDEX_BYTES as u128 <= limit;
            }
            vertex_start = vertex_end;
            index_start = index_end;
            i = i + 1;
        }
        true
    }

    /// The draw calls for meshes up to the first that does not fit, the textures
    /// found missing on the way, and whether there is such a mesh.
    #[verifier::rlimit(40)]
    fn plan_calls(
        &self,
        egui_context: &EguiContext,
        clipped_meshes: &Vec<ClippedMesh>,
    ) -> (plan: (Vec<DrawCall>, Vec<TextureId>, bool))
        requires
            frame::is_valid_request(
                self.slots(),
                clipped_meshes@,
                self.vertex_bytes(),
                self.index_bytes(),
            ),
        ensures
            ({
                let end = frame::stop(
                    self.slots(),
                    clipped_meshes@,
                    self.vertex_bytes(),
                    self.index_bytes(),
                );
                &&& plan.0@ == frame::calls_for(
                    self.slots(),
                    *egui_context,
                    clipped_meshes@,
                    end,
                )
                &&& plan.1@ == frame::missing_for(self.slots(), clipped_meshes@, end)
                &&& plan.2 == (end < clipped_meshes@.len())
            }),
    {
        let mut calls: Vec<DrawCall> = Vec::new();
        let mut missing: Vec<TextureId> = Vec::new();
        let mut vertex_start: usize = 0;
        let mut index_start: usize = 0;
        let mut i: usize = 0;
        while i < clipped_meshes.len()
            invariant
                i <= clipped_meshes@.len(),
                vertex_start == frame::vertex_offset(self.slots(), clipped_meshes@, i as nat),
                index_start == frame::index_offset(self.slots(), clipped_meshes@, i as nat),
                frame::stop_from(
                    self.slots(),
                    clipped_meshes@,
                    self.vertex_bytes(),
                    self.index_bytes(),
                    i as nat,
                ) == frame::stop(
                    self.slots(),
                    clipped_meshes@,
                    self.vertex_bytes(),
                    self.index_bytes(),
                ),
                calls@ == frame::calls_for(
                    self.slots(),
                    *egui_context,
                    clipped_meshes@,
                    i as nat,
                ),
                missing@ == frame::missing_for(self.slots(), clipped_meshes@, i as nat),
                frame::is_valid_request(
                    self.slots(),
                    clipped_meshes@,
                    self.vertex_bytes(),
                    self.index_bytes(),
                ),
            decreases clipped_meshes@.len() - i,
        {
            let mesh = &clipped_meshes[i].mesh;
            proof {
                frame::lemma_stop_from_reaches(
                    self.slots(),
                    clipped_meshes@,
                    self.vertex_bytes(),
                    self.index_bytes(),
                    i as nat,
                );
                assert(clipped_meshes@[i as int].mesh == *mesh);
            }
            // Nothing to draw without vertices and indices.
            if mesh.vertices.len() == 0 || mesh.indices.len() == 0 {
                i = i + 1;
                continue ;
            }
            if let TextureId::User(id) = mesh.texture_id {
                // The texture is not there anymore.
                if self.user_texture_desc_sets[id as usize].is_none() {
                    missing.push(mesh.texture_id);
                    i = i + 1;
                    continue ;
                }
            }
            let scissor = self.get_rect_scissor(egui_context, clipped_meshes[i].rect);
            let vertices_count = mesh.vertices.len();
            let indices_count = mesh.indices.len();
            if self.resize_needed(vertex_start + vertices_count, index_start + indices_count) {
                return (calls, missing, true);
            }
            calls.push(
                DrawCall {
                    mesh: i,
                    texture_id: mesh.texture_id,
                    scissor,
                    vertex_start,
                    vertices_count,
                    index_start,
                    indices_count,
                },
            );
            vertex_start = vertex_start + vertices_count;
            index_start = index_start + indices_count;
            i = i + 1;
        }
        (calls, missing, false)
    }

    /// Decides what a frame draws. Meshes without content are left out, and so
    /// are those whose texture is not there anymore. At the first mesh that does
    /// not fit into the buffers drawing stops, and larger buffers are asked for.
    /// Once they are allocated, `resize_allocations` takes them over for the next
    /// frame.
    pub fn draw(
        &self,
        egui_context: &EguiContext,
        clipped_meshes: &Vec<ClippedMesh>,
        framebuffer_dimensions: [u32; 2],
    ) -> (result: Frame)
        requires
            frame::is_valid_request(
                self.slots(),
                clipped_meshes@,
                self.vertex_bytes(),
                self.index_bytes(),
            ),
        ensures
            ({
                let slots = self.slots();
                let vertex_bytes = self.vertex_bytes();
                let index_bytes = self.index_bytes();
                let end = frame::stop(slots, clipped_meshes@, vertex_bytes, index_bytes);
                &&& result.calls@ == frame::calls_for(slots, *egui_context, clipped_meshes@, end)
                &&& result.missing@ == frame::missing_for(slots, clipped_meshes@, end)
                &&& result.growth == frame::growth_for(
                    slots,
                    clipped_meshes@,
                    vertex_bytes,
                    index_bytes,
                )
            }),
            result.growth matches Some(growth) ==> {
                &&& growth.new_vertices_size * VERTEX_BYTES <= usize::MAX
                &&& growth.new_indices_size * INDEX_BYTES <= usize::MAX
            },
            result.viewport_origin == [0u32, 0u32],
            result.viewport == frame::viewport_size(framebuffer_dimensions),
            result.depth_range == [0u32, 0x3f80_0000u32],
            result.screen_size == frame::point_size(
                framebuffer_dimensions,
                egui_context.scale_factor,
            ),
            0 < self.vertex_bytes() <= usize::MAX,
            0 < self.index_bytes() <= usize::MAX,
            forall|k: int|
                0 <= k < result.calls@.len() ==> {
                    let call = #[trigger] result.calls@[k];
                    let clipped = clipped_meshes@[call.mesh as int];
                    &&& call.mesh < clipped_meshes@.len()
                    &&& call.texture_id == clipped.mesh.texture_id
                    &&& call.scissor == scissor::rect_scissor(*egui_context, clipped.rect)
                    &&& call.vertices_count == clipped.mesh.vertices@.len()
                    &&& call.indices_count == clipped.mesh.indices@.len()
                    &&& call.vertices_count > 0
                    &&& call.indices_count > 0
                },
            result.growth matches Some(growth) ==> {
                &&& growth.new_vertices_size == 2 * self.vertex_bytes()
                &&& growth.new_indices_size == 2 * self.index_bytes()
            },
            forall|i: int|
                0 <= i < 2 ==> rounding::rounds_to(
                    framebuffer_dimensions[i] as nat * pow2(149),
                    1,
                    #[trigger] result.viewport[i] as nat,
                ),
            0 < egui_context.scale_factor < 0x7f80_0000 ==> forall|i: int|
                0 <= i < 2 ==> rounding::rounds_to(
                    rounding::units(result.viewport[i] as nat) * pow2(149),
                    rounding::units(egui_context.scale_factor as nat),
                    #[trigger] result.screen_size[i] as nat,
                ),
            egui_context.scale_factor == 0x3f80_0000 ==> result.screen_size == result.viewport,
    {
        proof {
            use_type_invariant(&self.buffers);
        }
        let viewport = [
            float32::ratio_code(framebuffer_dimensions[0], 1),
            float32::ratio_code(framebuffer_dimensions[1], 1),
        ];
        let screen_size = [
            float32::divide(viewport[0], egui_context.scale_factor),
            float32::divide(viewport[1], egui_context.scale_factor),
        ];
        let (calls, missing, full) = self.plan_calls(egui_context, clipped_meshes);
        let growth = if full {
            Some(
                Growth {
                    new_vertices_size: self.buffers.vertex_bytes * 2,
                    new_indices_size: self.buffers.index_bytes * 2,
                },
            )
        } else {
            None
        };
        proof {
            frame::lemma_stop_from_reaches(
                self.slots(),
                clipped_meshes@,
                self.vertex_bytes(),
                self.index_bytes(),
                0,
            );
            assert(clipped_meshes.len() == clipped_meshes@.len());
            let end = frame::stop(
                self.slots(),
                clipped_meshes@,
                self.vertex_bytes(),
                self.index_bytes(),
            );
            frame_laws::law_calls_match_their_meshes(
                self.slots(),
                *egui_context,
                clipped_meshes@,
                end,
            );
            lemma_frame_sizes(
                framebuffer_dimensions,
                egui_context.scale_factor,
                viewport,
                screen_size,
            );
        }
        Frame {
            screen_size,
            viewport_origin: [0, 0],
            viewport,
            depth_range: [0, 0x3f80_0000],
            calls,
            missing,
            growth,
        }
    }
}

} // verus!
