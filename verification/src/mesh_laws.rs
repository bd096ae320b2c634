//! What the copies of meshes hold, element by element.

use crate::arithmetic_laws;
use crate::float32;
use crate::mesh::{self, EguiVertex, Mesh, Vertex};
use crate::rounding;
use vstd::arithmetic::power2::*;
use vstd::prelude::*;

verus! {

/// Whether a vertex as the shader reads it is a vertex of a mesh: the same
/// position and texture coordinates, and for each of the four color components
/// what 255th parts of one it rounds to.
pub open spec fn shows(seen: EguiVertex, vertex: Vertex) -> bool {
    &&& seen.position[0] == vertex.pos.x
    &&& seen.position[1] == vertex.pos.y
    &&& seen.tex_coords[0] == vertex.uv.x
    &&& seen.tex_coords[1] == vertex.uv.y
    &&& forall|j: int|
        0 <= j < 4 ==> rounding::rounds_to(
            vertex.color[j] as nat * pow2(149),
            255,
            #[trigger] seen.color[j] as nat,
        )
}

/// A color component becomes the closest number to that many 255th parts.
pub proof fn law_color_component(channel: u8, other: nat)
    requires
        other <= 0x7f80_0000,
    ensures
        ({
            let word = mesh::normalized(channel) as nat;
            let exact = (channel as nat * pow2(149)) as int;
            &&& rounding::rounds_to(channel as nat * pow2(149), 255, word)
            &&& arithmetic_laws::distance(exact, (255 * rounding::units(word)) as int)
                <= arithmetic_laws::distance(exact, (255 * rounding::units(other)) as int)
        }),
{
    rounding::lemma_rounding_exists(channel as nat * float32::one(), 255);
    arithmetic_laws::law_ratio_is_closest(channel as nat, 255, other);
}

/// The shader sees the position, the texture coordinates and the color of a
/// vertex.
pub proof fn law_vertex(vertex: Vertex)
    ensures
        shows(mesh::gpu_vertex(vertex), vertex),
{
    law_color_component(vertex.color[0], 0);
    law_color_component(vertex.color[1], 0);
    law_color_component(vertex.color[2], 0);
    law_color_component(vertex.color[3], 0);
}

/// Vertices that the shader sees alike are equal: nothing of them is lost.
pub proof fn law_vertices_are_told_apart(a: Vertex, b: Vertex)
    requires
        mesh::gpu_vertex(a) == mesh::gpu_vertex(b),
    ensures
        a.pos == b.pos,
        a.uv == b.uv,
        a.color[0] == b.color[0],
        a.color[1] == b.color[1],
        a.color[2] == b.color[2],
        a.color[3] == b.color[3],
{
    let u = mesh::gpu_vertex(a);
    let v = mesh::gpu_vertex(b);
    assert(u.position[0] == v.position[0] && u.position[1] == v.position[1]);
    assert(u.tex_coords[0] == v.tex_coords[0] && u.tex_coords[1] == v.tex_coords[1]);
    assert(u.color[0] == v.color[0] && u.color[1] == v.color[1]);
    assert(u.color[2] == v.color[2] && u.color[3] == v.color[3]);
    lemma_components_told_apart(a.color[0], b.color[0]);
    lemma_components_told_apart(a.color[1], b.color[1]);
    lemma_components_told_apart(a.color[2], b.color[2]);
    lemma_components_told_apart(a.color[3], b.color[3]);
}

proof fn lemma_components_told_apart(a: u8, b: u8)
    requires
        mesh::normalized(a) == mesh::normalized(b),
    ensures
        a == b,
{
    crate::laws::law_color_order(a, b);
    crate::laws::law_color_order(b, a);
}

/// Copying a mesh puts its vertices one after another from the start on, each
/// at its own place, and its indices likewise. What lies before and behind them
/// stays, and so do the lengths.
pub proof fn law_copied_mesh(
    mesh: Mesh,
    vertex_content: Seq<EguiVertex>,
    index_content: Seq<u32>,
    vertex_start: int,
    index_start: int,
)
    requires
        0 <= vertex_start && vertex_start + mesh.vertices@.len() <= vertex_content.len(),
        0 <= index_start && index_start + mesh.indices@.len() <= index_content.len(),
    ensures
        ({
            let vertices = mesh::overwritten(
                vertex_content,
                vertex_start,
                mesh::gpu_vertices(mesh),
            );
            let indices = mesh::overwritten(index_content, index_start, mesh.indices@);
            &&& vertices.len() == vertex_content.len()
            &&& indices.len() == index_content.len()
            &&& forall|i: int|
                0 <= i < mesh.vertices@.len() ==> shows(
                    vertices[vertex_start + i],
                    #[trigger] mesh.vertices@[i],
                )
            &&& forall|i: int|
                0 <= i < mesh.indices@.len() ==> indices[index_start + i]
                    == #[trigger] mesh.indices@[i]
            &&& forall|i: int|
                0 <= i < vertices.len() && (i < vertex_start || i >= vertex_start
                    + mesh.vertices@.len()) ==> #[trigger] vertices[i] == vertex_content[i]
            &&& forall|i: int|
                0 <= i < indices.len() && (i < index_start || i >= index_start
                    + mesh.indices@.len()) ==> #[trigger] indices[i] == index_content[i]
        }),
{
    let vertices = mesh::overwritten(vertex_content, vertex_start, mesh::gpu_vertices(mesh));
    assert forall|i: int| 0 <= i < mesh.vertices@.len() implies shows(
        vertices[vertex_start + i],
        #[trigger] mesh.vertices@[i],
    ) by {
        law_vertex(mesh.vertices@[i]);
    }
}

} // verus!
