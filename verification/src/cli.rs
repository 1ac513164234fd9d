//! The invocation surface of the pipeline: an optional propagation
//! duration and a query naming the objects whose element text is fetched.

use vstd::prelude::*;

verus! {

/// One invocation's inputs.
#[derive(Debug)]
pub struct CLI {
    /// Custom propagation time in hours; a four-hour window is used when
    /// absent.
    pub time: Option<u32>,
    /// The command to run, if one was given.
    pub command: Option<Commands>,
}

/// The commands the program offers; both fetch, parse and propagate, and
/// differ only in how the trajectories are consumed.
#[derive(Debug)]
pub enum Commands {
    /// Render the trajectories around a three-dimensional Earth.
    Plot3d(QueryArgs),
    /// Plot the trajectories' ground tracks.
    Plot2d(QueryArgs),
}

/// A query naming the objects whose element text is fetched.
#[derive(Debug)]
pub struct QueryArgs {
    /// The query type: CATNR, INTDES, GROUP, NAME or SPECIAL.
    pub query: String,
    /// The queried value, e.g. a catalog number such as 25544.
    pub value: String,
}

} // verus!
