//! The geometry of convolution patches, and tensors from ONNX messages, with proofs of both.

pub mod arith;
pub mod arrays;
mod assemble;
pub mod copies;
pub mod data_format;
pub mod geometry;
pub mod grid;
pub mod grid_laws;
pub mod laws;
pub mod onnx;
pub mod padding;
pub mod patch;
pub mod patch_laws;
pub mod patch_spec;
pub mod visit;
pub mod visitor;
pub mod zone_laws;
