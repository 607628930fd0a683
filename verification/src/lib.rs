//! Extraction of Mozilla-flavoured LZ4 containers.
//!
//! A container is eight magic bytes, a little-endian `u32` that declares the
//! size of the content, and one LZ4 block.
//!
//! - [`format`] states what a block stands for, as a mathematical model.
//! - [`decoder`] decodes blocks; its result is proved to be the model's.
//! - [`laws`] proves what follows for every input: the size of the content,
//!   the one size under which a block decodes, the shape of a match.
//! - [`encoding`] states which bytes an encoder writes, and proves that the
//!   decoder turns them back into the content.
//! - [`container`] takes containers apart: header, declared size, block.
//! - [`lz4`] is the door to the `lz4_flex` crate, which [`inflate`] asks
//!   first for bodies of moderate length.

pub mod container;
pub mod decoder;
pub mod encoding;
pub mod error;
pub mod format;
pub mod laws;
pub mod lz4;

pub use container::{
    check_header, consume_body, consume_header, declared_size, extract, inflate, settle,
    ContainerReader, MAGIC_HEADER,
};
pub use decoder::decode;
pub use error::DecodeError;
