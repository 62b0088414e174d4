//! The resolved command-line options that a run of the duplicate finder
//! works from. Parsing and validation of the raw arguments happen outside
//! the library; this type only carries the resolved values.

use vstd::prelude::*;

verus! {

/// Options for one clustering run.
#[derive(Debug, Clone)]
pub struct Args {
    /// Path to the image directory.
    pub directory: String,
    /// Glob pattern used to gather image files.
    pub pattern: String,
    /// Recurse into subdirectories.
    pub recurse: bool,
    /// Width of the square fingerprint, in bits per side.
    pub hash_size: u32,
    /// Largest Hamming distance at which two images still match.
    pub min_distance: u32,
    /// Output file; when absent the results are only printed.
    pub out_file: Option<String>,
}

} // verus!
