//! Codec for the chapter directory of a paginated container file, with the
//! little-endian byte cursors it is built on.
pub mod buffer_reader;
pub mod buffer_writer;
pub mod chapter_table;
pub mod endian;
pub mod error;
pub mod text;
