//! Block quantisation of weight matrices, the `.base` container that holds the
//! result, and the launch geometry of the kernels that read it.

pub mod args;
pub mod base_file;
pub mod convert;
pub mod json;
pub mod launch;
pub mod le;
pub mod quantize;
pub mod reconstruction;
pub mod rounding;
pub mod single;
pub mod tensors;
