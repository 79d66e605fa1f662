//! The delegate that stands behind a node where nothing is to be shown.

use vstd::prelude::*;

verus! {

/// Delegate for the layout, painting and hit-testing of a node.
pub trait VisualDelegate {
    /// Whether a point hits the node. `inside` says whether the bounds of
    /// the node hold the point.
    fn hit_test(&self, inside: bool) -> bool;
}

/// A delegate that shows nothing and is never hit.
#[derive(Copy, Clone, Debug, PartialEq, Eq, Structural)]
pub struct NullVisual;

impl VisualDelegate for NullVisual {
    fn hit_test(&self, inside: bool) -> (r: bool)
        ensures
            !r,
    {
        false
    }
}

} // verus!
