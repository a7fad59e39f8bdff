//! Verified core of a grid-based multi-agent pathfinding viewer.
//!
//! The library owns the viewer's data model: an occupancy grid parsed from a
//! map file, an ordered list of agent start/goal pairs parsed from a scenario
//! file, a time-indexed table of agent positions parsed from a solver's
//! output, a playback cursor that scrubs through the solution's steps, and a
//! compositor that turns all of it into an ordered list of colored cell
//! rectangles. File and process handling live outside; the library works on
//! plain bytes and values.

use vstd::prelude::*;

pub mod grid;
pub mod num;
pub mod playback;
pub mod render;
pub mod scenario;
pub mod session;
pub mod solution;
pub mod text;

verus! {

/// A loaded file's contents violate the format it was read as.
#[derive(Clone, Copy, Debug, PartialEq, Eq, Structural)]
pub struct FormatError;

} // verus!
