//! Resolution of identifiers and install locations for titles managed by a
//! game-distribution client: a parser for the nested quoted key/value text
//! format used by its library-configuration files, an interpreter that turns
//! parsed trees into typed library-folder records, and a resolver that joins
//! those records against an id-to-name catalog to produce queryable,
//! orderable application records and derived filesystem paths.

pub mod cli;
pub mod library;
pub mod resolve;
pub mod vdf;
