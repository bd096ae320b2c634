//! The decisions of a renderer that draws egui meshes with Vulkan: which ids
//! user textures get, which meshes a frame draws, where their data lies in the
//! vertex and index buffers, when the buffers grow, which pixels a mesh may
//! touch, and what the shader reads of a vertex.
//!
//! Single precision numbers are held as bit patterns, and what is computed of
//! them is rounded as IEEE 754 has it.

pub mod arithmetic_laws;
pub mod float32;
pub mod frame;
pub mod frame_laws;
pub mod laws;
pub mod mesh;
pub mod mesh_laws;
pub mod renderer;
pub mod rounding;
pub mod scissor;
pub mod scissor_laws;
pub mod texture;
pub mod texture_laws;

pub use crate::frame::{DrawCall, Frame, Growth};
pub use crate::mesh::{ClippedMesh, EguiVertex, Mesh, TextureId, Vertex};
pub use crate::renderer::EguiVulkanoRenderer;
pub use crate::scissor::{EguiContext, Pos2, Rect, Scissor};
pub use crate::texture::{FontImage, Texture};
