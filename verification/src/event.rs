//! Input events as the tree sees them: plain values, with positions already
//! quantized to whole pixels.

use vstd::prelude::*;

verus! {

/// A position in window coordinates, in whole pixels.
#[derive(Copy, Clone, Debug, PartialEq, Eq, Hash, Structural)]
pub struct Position {
    pub x: i64,
    pub y: i64,
}

/// A button of a pointing device that events are delivered for.
#[derive(Copy, Clone, Debug, PartialEq, Eq, Hash, Structural)]
pub enum PointerButton {
    Left,
    Right,
    Middle,
    X1,
    X2,
}

/// A button as the platform reports it. `Other` stands for the extended
/// buttons, which are not delivered.
#[derive(Copy, Clone, Debug, PartialEq, Eq, Hash, Structural)]
pub enum MouseButton {
    Left,
    Right,
    Middle,
    Back,
    Forward,
    Other(u16),
}

impl PointerButton {
    /// The bit that stands for this button in a [`PointerButtons`] mask.
    pub open spec fn spec_mask(self) -> u32 {
        match self {
            PointerButton::Left => 1,
            PointerButton::Right => 2,
            PointerButton::Middle => 4,
            PointerButton::X1 => 8,
            PointerButton::X2 => 16,
        }
    }

    #[verifier::when_used_as_spec(spec_mask)]
    pub fn mask(self) -> (r: u32)
        ensures
            r == self.spec_mask(),
    {
        match self {
            PointerButton::Left => 1,
            PointerButton::Right => 2,
            PointerButton::Middle => 4,
            PointerButton::X1 => 8,
            PointerButton::X2 => 16,
        }
    }
}

impl MouseButton {
    /// The button that events are delivered for, if this is one.
    pub open spec fn spec_pointer_button(self) -> Option<PointerButton> {
        match self {
            MouseButton::Left => Some(PointerButton::Left),
            MouseButton::Right => Some(PointerButton::Right),
            MouseButton::Middle => Some(PointerButton::Middle),
            MouseButton::Back => Some(PointerButton::X1),
            MouseButton::Forward => Some(PointerButton::X2),
            MouseButton::Other(_) => None,
        }
    }

    #[verifier::when_used_as_spec(spec_pointer_button)]
    pub fn pointer_button(self) -> (r: Option<PointerButton>)
        ensures
            r == self.spec_pointer_button(),
    {
        match self {
            MouseButton::Left => Some(PointerButton::Left),
            MouseButton::Right => Some(PointerButton::Right),
            MouseButton::Middle => Some(PointerButton::Middle),
            MouseButton::Back => Some(PointerButton::X1),
            MouseButton::Forward => Some(PointerButton::X2),
            MouseButton::Other(_) => None,
        }
    }
}

/// The set of buttons that are held down, as a bit mask.
#[derive(Copy, Clone, Debug, PartialEq, Eq, Hash, Structural)]
pub struct PointerButtons {
    pub bits: u32,
}

impl PointerButtons {
    /// No button held down.
    pub fn new() -> (r: PointerButtons)
        ensures
            r.bits == 0,
    {
        PointerButtons { bits: 0 }
    }

    /// The set with `button` held down.
    pub open spec fn with(self, button: PointerButton) -> PointerButtons {
        PointerButtons { bits: self.bits | button.spec_mask() }
    }

    /// The set with `button` let go.
    pub open spec fn without(self, button: PointerButton) -> PointerButtons {
        PointerButtons { bits: self.bits & !button.spec_mask() }
    }

    /// Whether `button` is held down.
    pub open spec fn spec_test(self, button: PointerButton) -> bool {
        self.bits & button.spec_mask() != 0
    }

    /// Records that `button` is held down.
    pub fn set(&mut self, button: PointerButton)
        ensures
            *final(self) == old(self).with(button),
    {
        self.bits = self.bits | button.mask();
    }

    /// Records that `button` was let go.
    pub fn reset(&mut self, button: PointerButton)
        ensures
            *final(self) == old(self).without(button),
    {
        self.bits = self.bits & !button.mask();
    }

    #[verifier::when_used_as_spec(spec_test)]
    pub fn test(self, button: PointerButton) -> (r: bool)
        ensures
            r == self.spec_test(button),
    {
        self.bits & button.mask() != 0
    }

    /// A button that was set is held down, one that was reset is not.
    pub proof fn lemma_set_reset(self, button: PointerButton)
        ensures
            self.with(button).spec_test(button),
            !self.without(button).spec_test(button),
    {
        let b = self.bits;
        let m = button.spec_mask();
        assert(m != 0 ==> (b | m) & m != 0) by (bit_vector);
        assert((b & !m) & m == 0) by (bit_vector);
    }
}

/// What a pointer event tells a node.
#[derive(Copy, Clone, Debug, PartialEq, Eq, Hash, Structural)]
pub enum PointerKind {
    /// A button went down.
    Down,
    /// A button went up.
    Up,
    /// The pointer moved.
    Move,
    /// The pointer came over the node as the innermost node hit; bubbles.
    Over,
    /// The node stopped being the innermost node hit; bubbles.
    Out,
    /// The pointer came over the node; not bubbled.
    Enter,
    /// The pointer left the node; not bubbled.
    Leave,
}

/// A pointer event.
#[derive(Copy, Clone, Debug, PartialEq, Eq, Hash, Structural)]
pub struct PointerEvent {
    pub kind: PointerKind,
    /// Where the pointer is, in window coordinates.
    pub position: Position,
    /// The keyboard modifiers held down, as the platform's bit mask.
    pub modifiers: u32,
    /// The buttons held down after the event.
    pub buttons: PointerButtons,
    /// The button that went down or up, for those two kinds of event.
    pub button: Option<PointerButton>,
    /// 1 for a click, 2 for a double click, and so on; 0 where the event is
    /// no click.
    pub repeat_count: u8,
    /// Set by a handler that wants the pointer captured.
    pub request_capture: bool,
}

/// One delivery that a raw event leads to.
#[derive(Copy, Clone, Debug, PartialEq, Eq, Hash, Structural)]
pub struct Dispatch {
    /// The node whose handler is called first.
    pub target: crate::tree::model::Element,
    /// The event that is delivered.
    pub event: PointerEvent,
    /// Whether the ancestors of the target get the event after it, innermost
    /// first.
    pub bubbling: bool,
}

} // verus!
