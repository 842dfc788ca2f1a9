//! Outlined text: layout, composition and caching of multi-section styled
//! text, drawn as pre-composed RGBA atlases of rasterised glyphs.
//!
//! - `raster`: glyph coverage bitmaps and their flat-coloured RGBA pixels.
//! - `layout`: lines, justification and anchoring of a shaped text.
//! - `compose`: one atlas per layer (fill, outline) from positioned glyphs.
//! - `cache`: per-entity atlases, when to refresh them, and per-frame
//!   extraction of draw primitives.
//! - `font`: fonts loaded from font-file bytes.
pub mod raster;
pub mod layout;
pub mod compose;
pub mod cache;
pub mod font;
