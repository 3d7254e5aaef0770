//! Scene-side bookkeeping: per-instance data waiting for upload, index data of
//! imported meshes, image pixel packing and the scene graph.

pub mod instances;
pub mod graph;
pub mod import;
pub mod import_check;
pub mod import_laws;
pub mod material;
pub mod mesh;
