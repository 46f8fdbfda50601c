//! Configuration of the tool that serves a combined index.

use vstd::prelude::*;

verus! {

/// Where the serialized (cell, value) record stream to serve lives.
pub struct Cli {
    /// Path to the serialized record-stream file.
    pub path: String,
}

} // verus!
