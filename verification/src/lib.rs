//! Block-compressed texture surfaces: format tables, size validation, mip
//! chain assembly, and encoding and decoding block by block.
//!
//! A surface holds the pixels or blocks of a texture with all its array layers
//! and mip levels. `encode::encode_surface_rgba8` makes a surface in one of the
//! formats of `format::ImageFormat` from RGBA pixels, generating the mip
//! levels or taking them from the pixels, and `decode::decode_surface_rgba8`
//! gives the pixels back.
//!
//! The blocks of the compressed formats are made by the encoders of
//! `intel_tex_2` and read by the decoders of `bcdec_rs`. Of an encoder the
//! contracts state what it is handed and how long its answer is; of a decoder,
//! that its answer depends on the block alone.

pub mod bcn;
pub mod decode;
pub mod encode;
pub mod error;
pub mod etc;
pub mod format;
pub mod image;
pub mod mip;
pub mod rgba;
pub mod surface;
pub mod unorm;
