//! The front-end options: which files to load and how many rounds to run.
//! Command-line parsing itself lives outside the engine; this is the plain
//! record it produces.

use vstd::prelude::*;

verus! {

/// What a front end hands the engine: optional paths to the world file
/// and to each colony's instruction file, and the round cap.
#[derive(Debug)]
pub struct Options {
    /// The path to the world file, if one was given.
    pub world: Option<String>,
    /// The path to the red colony's instruction file, if one was given.
    pub red: Option<String>,
    /// The path to the black colony's instruction file, if one was given.
    pub black: Option<String>,
    /// The number of rounds to execute.
    pub rounds: u32,
}

impl Default for Options {
    /// No files, and the customary cap of one hundred thousand rounds.
    fn default() -> (r: Options)
        ensures
            r.world is None,
            r.red is None,
            r.black is None,
            r.rounds == 100000,
    {
        Options { world: None, red: None, black: None, rounds: 100000 }
    }
}

} // verus!
