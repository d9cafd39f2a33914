//! A read-only query engine over a single-file database in the SQLite 3
//! on-disk format.
//!
//! The engine decodes pages, records and variable-length integers from an
//! in-memory copy of the database file, walks table and index B-trees, and
//! evaluates a restricted subset of `SELECT` queries: full scans, rowid
//! point lookups, index-driven equality probes, column projection and
//! `COUNT(*)`.  All text handled by the engine is kept as UTF-8 bytes; a
//! caller turns bytes into displayable strings at the edge.

pub mod btree;
pub mod cell;
pub mod db;
pub mod error;
pub mod index;
pub mod page;
pub mod parsers;
pub mod schema_table;
pub mod sql;
pub mod strconv;
pub mod table;
pub mod text;
pub mod utils;
pub mod varint;
