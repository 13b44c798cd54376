//! Values that one side changes and others watch.

use vstd::prelude::*;

verus! {

/// The error returned when a watched value has no writer left, so that it
/// can't change any more.
#[derive(Clone, Copy, Debug, PartialEq, Eq)]
pub struct NoWriters;

} // verus!
