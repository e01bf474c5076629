//! Core of a font-source viewer: glyph identity and ordering, Unicode block
//! classification, cross-master interpolation-compatibility checking, and an
//! incrementally rebuilt thumbnail cache.

pub mod argparser;
pub mod blocks;
pub mod filter;
pub mod glif;
pub mod glyph_entries;
pub mod glyphs;
pub mod interpolation;
pub mod metadata;
pub mod strutil;
pub mod ufo_cache;
pub mod viewer;
