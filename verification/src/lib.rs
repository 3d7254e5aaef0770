//! Bookkeeping core of a small Vulkan scene renderer: slot pools with
//! generational ids, the sub-allocator that places meshes inside large GPU
//! buffers, the render-node registry, per-instance upload tracking, the scene
//! graph and the per-frame scheduling decisions.
//!
//! Everything here works on plain values; the GPU, the window and the file
//! formats are driven by the surrounding program.

pub mod slots;
pub mod gen_pool;
pub mod render;
pub mod scene;
pub mod input;
pub mod scene_render;
