//! The interpreter's settings.

use vstd::prelude::*;

verus! {

/// What the interpreter is asked to do.
#[derive(Debug)]
pub struct Config {
    /// The file to run.
    pub file: String,
    /// Compile only; do not run.
    pub compile_only: bool,
    /// Run only; do not compile.
    pub run_only: bool,
}

impl Config {
    pub fn new() -> (r: Config)
        ensures
            r.file@.len() == 0,
            !r.compile_only,
            !r.run_only,
    {
        Config { file: String::new(), compile_only: false, run_only: false }
    }
}

} // verus!
