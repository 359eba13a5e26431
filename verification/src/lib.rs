use vstd::prelude::*;

pub mod file;
pub mod logger;
pub mod lzf;
pub mod parser;
pub mod text;

verus! {

/// The failure kinds that the merge pipeline can surface.
#[derive(Debug, Clone, Copy, PartialEq, Eq, Structural)]
pub enum RdbError {
    /// Input bytes do not conform to the RDB v6 grammar.
    ParseError,
    /// LZF decompression indexed out of bounds.
    DecodeError,
    /// The output path does not name an existing directory.
    DirectoryMissing,
}

} // verus!
