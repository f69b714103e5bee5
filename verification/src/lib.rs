//! Repacking of decoded RGBA pixel buffers whose rows carry trailing
//! padding, and their encoding as PNG streams.

pub mod encode;
pub mod repack;
