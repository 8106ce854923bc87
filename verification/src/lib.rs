//! Host-side logic of a desktop lyric panel: the serial wire protocol spoken
//! with the display board, the lyric and metadata bitmaps it draws, and the
//! small decoders and text rules around them.

pub mod wire;
pub mod graphics;
pub mod protocol;
pub mod rle;
pub mod text;
pub mod canvas;
pub mod link;
pub mod meta;
pub mod cache;
pub mod controls;
pub mod lyrics;
pub mod memscan;
pub mod cover;
