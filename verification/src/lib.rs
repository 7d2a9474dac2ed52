//! Reader for MDX dictionary files: a binary, block-structured, optionally
//! encrypted and compressed format. The crate parses the header, key-index
//! and record-index sections, builds a table of physical record coordinates,
//! and decodes one record block at a time on demand.

pub mod error;
pub mod header;
pub mod keyblock;
pub mod mdx;
pub mod recordblock;
pub mod unpack;
pub mod util;
