//! Render-side bookkeeping: buffer sub-allocation, the mesh pool, the render
//! node registry and per-frame scheduling.

pub mod buffer_pool;
pub mod mesh_pool;
pub mod subpass_node;
pub mod frame;
