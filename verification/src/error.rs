//! The ways in which carving up or giving back a region can be refused.

use vstd::prelude::*;

verus! {

/// Why a request on a region was refused. A refused request leaves every
/// region it touched exactly as it was.
#[derive(Clone, Copy, PartialEq, Eq, Structural, Debug)]
pub enum RegionError {
    /// The requested range is empty, reversed, or reaches past the end of
    /// the region it is relative to.
    InvalidRange,
    /// The requested range intersects a range that is already handed out.
    Overlap,
    /// No gap between the ranges handed out is large enough.
    OutOfSpace,
    /// The region still has ranges handed out of it, so it cannot go away.
    LiveChildren,
    /// The region handed back was not carved out of this parent.
    NotAChild,
    /// The region is a window of another region and is given back to its
    /// parent rather than torn down.
    NotARoot,
}

} // verus!
