//! Reading and writing ZIF, a tiled multi-resolution image container that is
//! a constrained, little-endian, 64-bit-offset subset of BigTIFF.
//!
//! The reader and the writer do no I/O: the reader asks for byte ranges and
//! is handed chunks, the writer emits write operations for the caller to
//! apply.
use vstd::prelude::*;

pub mod error;
pub mod format;
pub mod history;
pub mod http;
pub mod level_edits;
mod model;
mod reader;
pub mod file_image;
pub mod readback;
pub mod resizing;
pub mod sample;
pub mod writeback;
mod writer;

pub use error::Error;
pub use model::{ChainKind, Chunk, Codec, ColorModel, Level, LevelTiles, Region, Request, Tile, Zif, ZifView};
pub use reader::{ReadStatus, Reader};
pub use sample::zif_bytes as sample_zif_bytes;
pub use writer::{LevelSpec, WriteBatch, WriteOp, Writer, WriterBuilder};

verus! {
} // verus!
