//! The ETC formats: tiles of 4x4 pixels in blocks of 8 bytes.

pub mod decode;
