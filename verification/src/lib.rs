//! Codec for the DAT container format: an opaque data blob packaged with a
//! bitmap of the words in it that hold relocatable offsets, a table of named
//! roots, a table of externally resolved patch points and a table of symbol
//! names.
//!
//! [`DatFile::import`] decodes a container from bytes and
//! [`DatFile::export`] encodes it again; the remaining methods of
//! [`DatFile`] change a container in memory.

pub mod bytes;
pub mod container;
pub mod error;
pub mod header;
pub mod laws;
pub mod reloc;
pub mod symbols;
pub mod table;

pub use crate::container::DatFile;
pub use crate::error::{DatError, DatResult};
pub use crate::header::Header;
pub use crate::table::{DatOffset, Ref, Root, SymbolOffset};
