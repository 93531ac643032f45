//! A glyph atlas: a binary-tree rectangle packer, a glyph cache keyed by
//! character and font, and the per-frame batching that measures, sorts and
//! places new glyphs.
pub mod error;
pub mod font;
pub mod glyph_atlas;
pub mod packing;

pub use crate::font::Font;
