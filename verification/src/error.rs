//! The error type shared by every decoding and query operation.

use vstd::prelude::*;

verus! {

/// Every operation of the engine returns either a value or one of these
/// typed errors.  No operation panics on untrusted input.
#[derive(Debug, Clone, Copy, PartialEq, Eq, Structural)]
pub enum Error {
    /// A read ran past the end of the available bytes.
    UnexpectedEof,
    /// The page-type byte of a page header is not one of the four known ones.
    InvalidPageType(u8),
    /// A record header holds a serial-type code with no meaning (10 or 11).
    InvalidSerialType(u64),
    /// The serial-type varints of a record header run past the declared
    /// header size.
    RecordHeaderOverrun,
    /// A text column's body is not valid UTF-8.
    InvalidUtf8,
    /// A cell pointer or cell body lies outside the page.
    CellOutOfRange,
    /// Page numbers are 1-based; page 0 was requested.
    PageNumberZero,
    /// The requested page lies past the end of the file.
    PageOutOfRange,
    /// A B-tree descent visited more pages than the file holds.
    CorruptBtree,
    /// A table search reached an index page, or an index search a table
    /// page.
    UnexpectedPageType,
    /// A cell of the schema table is missing a column or its root page does
    /// not parse as a page number.
    MalformedSchema,
    /// No table of the given name exists in the schema.
    UnknownTable,
    /// A projected or filtered column name is not a column of the table.
    UnknownColumn,
    /// The `CREATE TABLE` / `CREATE INDEX` text or the query text does not
    /// match the supported grammar.
    ParseError,
    /// The 48-bit integer serial type is deliberately not implemented.
    Unimplemented,
}

} // verus!
