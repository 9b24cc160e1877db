//! Re-alignment of variable-sized bitmap glyphs into fixed 8-row cells, and
//! the two encodings of the result: a binary console-font table and a
//! canonical textual glyph stream.

pub mod align;
pub mod cell;
pub mod idempotence;
pub mod line;
pub mod number;
pub mod preview;
pub mod psf;
pub mod reader;
pub mod stream;
pub mod text;
