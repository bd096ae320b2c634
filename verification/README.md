# egui_vulkano

The decisions of a renderer that draws egui meshes with Vulkan, written in Verus.

- `src/renderer.rs`: the renderer. Registering user textures, keeping track of the
  font texture and of the sizes of the buffers, copying meshes, planning a frame.
- `src/frame.rs`: what a frame consists of, which meshes are drawn, and where.
- `src/texture.rs`: the slots of user textures and the image of the font.
- `src/mesh.rs`: meshes, and vertices as the shader reads them.
- `src/scissor.rs`: clip rectangles in points and scissor boxes in pixels.
- `src/float32.rs`, `src/rounding.rs`: arithmetic on the bit patterns of single
  precision numbers, rounded to nearest.
- `src/laws.rs`: what holds across calls.
- `app/`: the part that talks to the GPU, in ordinary Rust.
