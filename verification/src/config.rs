//! The tool's configuration as plain data. Reading and writing it as a TOML
//! file is left to the caller; the library only holds the values.

use vstd::prelude::*;

verus! {

/// What the tool is configured to sync: the files to take, the version of the
/// configuration layout, and where the encrypted copies go.
#[derive(Debug, Clone)]
pub struct Config {
    pub sources: Vec<String>,
    pub version: String,
    pub destination: String,
}

} // verus!
