//! A windowed hex-dump core: a tiled, cache-backed byte reader that turns
//! rectangular window requests into clipped row ranges, and a rendering
//! engine that walks a captured window once, emitting per-byte, group and
//! line events to caller-supplied sinks.

pub mod byte_reader;
pub mod hex_reader;
pub mod hex_tables;

pub use hex_tables::ByteCategory;
