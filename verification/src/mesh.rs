//! Meshes as they come from the tessellator, and vertices as the GPU reads them.

use crate::float32;
use crate::scissor::{Pos2, Rect};
use vstd::prelude::*;

verus! {

/// The texture of a mesh.
#[derive(Clone, Copy, Debug, PartialEq, Eq)]
pub enum TextureId {
    /// The font texture.
    Egui,
    /// A texture that the user registered.
    User(u64),
}

/// A vertex of a mesh.
#[derive(Clone, Copy, Debug, PartialEq, Eq)]
pub struct Vertex {
    pub pos: Pos2,
    pub uv: Pos2,
    /// Red, green, blue and alpha.
    pub color: [u8; 4],
}

/// Textured triangles.
#[derive(Debug)]
pub struct Mesh {
    pub indices: Vec<u32>,
    pub vertices: Vec<Vertex>,
    pub texture_id: TextureId,
}

/// A mesh and the rectangle it is clipped to.
#[derive(Debug)]
pub struct ClippedMesh {
    pub rect: Rect,
    pub mesh: Mesh,
}

/// A vertex as the shader reads it. Each component is the bit pattern of an
/// `f32`; the color components run from zero to one.
#[derive(Default, Debug, Clone, Copy, PartialEq, Eq)]
pub struct EguiVertex {
    pub position: [u32; 2],
    pub tex_coords: [u32; 2],
    pub color: [u32; 4],
}

/// A color component between zero and one, `channel / 255` rounded.
pub open spec fn normalized(channel: u8) -> u32 {
    float32::ratio(channel as nat, 255) as u32
}

/// What the shader reads of a vertex.
pub open spec fn gpu_vertex(vertex: Vertex) -> EguiVertex {
    EguiVertex {
        position: [vertex.pos.x, vertex.pos.y],
        tex_coords: [vertex.uv.x, vertex.uv.y],
        color: [
            normalized(vertex.color[0]),
            normalized(vertex.color[1]),
            normalized(vertex.color[2]),
            normalized(vertex.color[3]),
        ],
    }
}

/// What the shader reads of the vertices of a mesh.
pub open spec fn gpu_vertices(mesh: Mesh) -> Seq<EguiVertex> {
    mesh.vertices@.map_values(|vertex: Vertex| gpu_vertex(vertex))
}

/// A sequence with the part that begins at `start` replaced by `data`.
pub open spec fn overwritten<T>(content: Seq<T>, start: int, data: Seq<T>) -> Seq<T> {
    Seq::new(
        content.len(),
        |i: int|
            if start <= i < start + data.len() {
                data[i - start]
            } else {
                content[i]
            },
    )
}

/// A color component between zero and one.
pub fn normalize(channel: u8) -> (word: u32)
    ensures
        word == normalized(channel),
{
    float32::ratio_code(channel as u32, 255)
}

impl EguiVertex {
    /// The vertex in the form the shader reads.
    pub fn from_vertex(vertex: &Vertex) -> (result: EguiVertex)
        ensures
            result == gpu_vertex(*vertex),
    {
        EguiVertex {
            position: [vertex.pos.x, vertex.pos.y],
            tex_coords: [vertex.uv.x, vertex.uv.y],
            color: [
                normalize(vertex.color[0]),
                normalize(vertex.color[1]),
                normalize(vertex.color[2]),
                normalize(vertex.color[3]),
            ],
        }
    }
}

} // verus!
