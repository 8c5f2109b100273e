//! A codec for URL query strings.
//!
//! `query` reads a query string into a parameter mapping and writes a
//! mapping back; `params` holds the mappings; `percent` percent-encodes and
//! percent-decodes a text; `helper` removes characters from a text.
//!
//! Parsing and writing leave keys and values as they are: where they are
//! percent-encoded, the caller decodes or encodes them.

pub mod helper;
pub mod params;
pub mod percent;
pub mod query;
mod text;
