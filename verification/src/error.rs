//! The failure kinds shared by every file-level operation. No kind is
//! recovered locally: a failure aborts the operation that met it.

use vstd::prelude::*;

verus! {

/// Everything that can go wrong while reading, parsing or writing a graph
/// file. The I/O kinds are produced by the unverified shell around the
/// library; the parsing kinds by the record grammars.
#[derive(Debug, Clone, Copy, PartialEq, Eq, Structural)]
pub enum CmdError {
    /// A file could not be opened.
    FileOpenError,
    /// A line could not be read.
    LineReadError,
    /// A field failed its record grammar.
    ParseError,
    /// A record held fewer fields than its grammar requires.
    EmptyLine,
    /// A write to the destination failed.
    WriteError,
    /// The destination file could not be created.
    CreateFileError,
    /// A record tag outside `H`, `S`, `L`, `W`, `P`.
    UnknownLineType,
}

} // verus!
