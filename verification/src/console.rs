//! The reporting handle.  Rendering itself happens outside the library;
//! the run's events carry everything a renderer needs.
use vstd::prelude::*;

verus! {

/// Whether a finished run counted plain matches or applied replacements.
pub enum Operation {
    Match,
    Replacement,
}

/// A handle standing for the console that renders the run's events.
pub struct Console {}

impl Console {
    pub fn new() -> (c: Console)
        ensures
            c == (Console {  }),
    {
        Console {  }
    }
}

} // verus!
