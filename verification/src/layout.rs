//! The vocabulary of flex layout. The arithmetic of layout works on
//! fractional lengths and is not part of this library.

use vstd::prelude::*;

verus! {

/// How the children are placed along the main axis.
#[derive(Copy, Clone, Debug, PartialEq, Eq, Hash, PartialOrd, Ord, Structural)]
pub enum MainAxisAlignment {
    Start,
    End,
    Center,
    SpaceBetween,
    SpaceAround,
    SpaceEvenly,
}

/// How the children are placed across the main axis.
#[derive(Copy, Clone, Debug, PartialEq, Eq, Hash, PartialOrd, Ord, Structural)]
pub enum CrossAxisAlignment {
    Start,
    End,
    Center,
    Stretch,
    Baseline,
}

/// The main axis of a layout.
#[derive(Copy, Clone, Debug, PartialEq, Eq, Structural)]
pub enum Axis {
    Vertical,
    Horizontal,
}

impl Default for MainAxisAlignment {
    fn default() -> (r: MainAxisAlignment)
        ensures
            r == MainAxisAlignment::Start,
    {
        MainAxisAlignment::Start
    }
}

impl Default for CrossAxisAlignment {
    fn default() -> (r: CrossAxisAlignment)
        ensures
            r == CrossAxisAlignment::Start,
    {
        CrossAxisAlignment::Start
    }
}

impl Default for Axis {
    fn default() -> (r: Axis)
        ensures
            r == Axis::Vertical,
    {
        Axis::Vertical
    }
}

impl Axis {
    /// The other axis.
    pub fn cross(self) -> (r: Axis)
        ensures
            r != self,
    {
        match self {
            Axis::Vertical => Axis::Horizontal,
            Axis::Horizontal => Axis::Vertical,
        }
    }

    /// Of a length along the main axis and one across it, given in that
    /// order, the horizontal one and then the vertical one.
    pub fn width_height<L>(self, main: L, cross: L) -> (r: (L, L))
        ensures
            r == match self {
                Axis::Horizontal => (main, cross),
                Axis::Vertical => (cross, main),
            },
    {
        match self {
            Axis::Horizontal => (main, cross),
            Axis::Vertical => (cross, main),
        }
    }
}

/// The attached property that holds the flex factor of a child.
#[derive(Copy, Clone, Debug, PartialEq, Eq, Structural)]
pub struct FlexFactor;

/// What a flex layout is asked to do. `C` is the type of the constraints
/// that the layout works under.
pub struct FlexLayoutParams<C> {
    pub axis: Axis,
    /// Where bounded, the layout takes the largest size; else it sizes to
    /// its content.
    pub constraints: C,
    pub cross_axis_alignment: CrossAxisAlignment,
    pub main_axis_alignment: MainAxisAlignment,
}

} // verus!
