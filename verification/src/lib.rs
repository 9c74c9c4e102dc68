//! Resolves instruction offsets of a compiled module to positions in the
//! sources it was compiled from, using the module's source map.
//!
//! A source map holds, in its `mappings` string, a table of correspondences
//! between offsets in the generated module and positions in the sources.
//! [`table::MappingTable::decode`] reads that table, and
//! [`table::MappingTable::get_source`] finds, for a query offset, the last
//! entry at or before it.
//!
//! - [`vlq`]: the base64 variable-length quantities that the string is
//!   written in.
//! - [`segments`]: how the string divides into segments.
//! - [`decoder`]: the running counters, and the entries they give.
//! - [`entry`]: one entry of the table.
//! - [`table`]: the sorted table.
//! - [`resolver`]: the search for a query offset.
//! - [`query`]: query offsets as written, in decimal or hexadecimal.
//! - [`wrap`]: 32-bit wrapping of mathematical integers.

pub mod decoder;
pub mod entry;
pub mod query;
pub mod resolver;
pub mod segments;
pub mod table;
pub mod vlq;
pub mod wrap;
