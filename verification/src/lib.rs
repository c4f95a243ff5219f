//! Tensors with explicit shapes and strides, a bump arena that accounts for
//! tensor storage, and a reader for GGUF model files.

pub mod acute;
pub mod gguf;
pub mod layout;
pub mod model_loader;
pub mod ops;
pub mod small_index;
pub mod tensor;

pub use tensor::Tensor;
