//! The command-line surface, as plain data. Argument parsing itself lives
//! with the program around the library; the library only defines what the
//! settings are.

use vstd::prelude::*;

verus! {

/// The run settings: input and output directories, the optional tokenizer
/// name (a hub identifier or a path to a tokenizer file; absent means the
/// whitespace word count), the forum label stamped on every record, the
/// overwrite-safety flag, and the low-memory flag forcing strictly
/// sequential folder processing.
pub struct Cli {
    pub input: String,
    pub output: String,
    pub tokenizer: Option<String>,
    pub source: String,
    pub safe: bool,
    pub low_memory: bool,
}

} // verus!
