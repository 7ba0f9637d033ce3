//! The plain argument records of the command-line surface. The library
//! holds them as bare data; the binary around it carries the copies that
//! the argument parser fills in.

use vstd::prelude::*;

verus! {

/// Arguments of the name-of-id query.
#[derive(Debug, Clone, Copy, PartialEq, Eq, Structural)]
pub struct CliNameOf {
    pub app_id: u32,
}

/// Arguments of the id-of-name query: a name pattern, whether to match
/// case-sensitively, and whether to search installed titles only.
#[derive(Debug, Clone, PartialEq)]
pub struct CliIdOf {
    pub case_sensitive: bool,
    pub installed: bool,
    pub regex: String,
}

/// Arguments of the compatibility-data query: a name pattern, whether to
/// match case-sensitively, and whether to append the prefix directory.
#[derive(Debug, Clone, PartialEq)]
pub struct CliCompatData {
    pub case_sensitive: bool,
    pub drive_c: bool,
    pub regex: String,
}

} // verus!
