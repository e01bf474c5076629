//! The command line as the viewer reads it: an optional font directory to
//! open at startup.

use vstd::prelude::*;

verus! {

/// The parsed command line.
#[derive(Debug)]
pub struct Args {
    pub filename: Option<String>,
}

} // verus!
