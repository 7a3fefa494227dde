//! Renders a grayscale raster image as text by mapping image tiles to the
//! most similar glyph of a monospaced glyph atlas, and reconstructs a raster
//! image from such text.
//!
//! The library works on plain pixel buffers and pre-rasterized glyph data:
//! decoding image files and rasterizing fonts are left to the caller.

use vstd::prelude::*;

pub mod arith;
pub mod grayimg;
pub mod atlas;
pub mod matcher;
pub mod render;

verus! {

/// The failures the library reports. Every failure is fatal to the current
/// run; the library never produces partial output.
#[derive(Clone, Copy, Debug, PartialEq, Eq, Structural)]
pub enum AsciiArtError {
    /// The character range handed to the atlas builder was empty.
    EmptyRange,
    /// A character of the range has no glyph in the font.
    UnrenderableCharacter,
    /// Reconstruction was asked to draw a character absent from the atlas.
    UnknownGlyph,
}

} // verus!
