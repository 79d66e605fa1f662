//! How a node that can be pressed and hovered answers pointer events.

use crate::event::PointerKind;
use vstd::prelude::*;

verus! {

/// Whether a node is pressed, hovered, focused.
#[derive(Copy, Clone, Debug, PartialEq, Eq, Structural)]
pub struct InteractState {
    pub active: bool,
    pub hovered: bool,
    pub focused: bool,
}

/// What a node tells its listeners.
#[derive(Copy, Clone, Debug, PartialEq, Eq, Structural)]
pub enum Emission {
    /// The state changed to the one given.
    StateChanged(InteractState),
    /// The node became pressed, or no longer is.
    Active(bool),
    /// The pointer came over the node, or left it.
    Hovered(bool),
    /// A press that began on the node ended.
    Clicked,
}

impl Default for InteractState {
    fn default() -> (r: InteractState)
        ensures
            r == (InteractState { active: false, hovered: false, focused: false }),
    {
        InteractState { active: false, hovered: false, focused: false }
    }
}

impl InteractState {
    /// The state after a pointer event.
    pub open spec fn after(self, kind: PointerKind) -> InteractState {
        match kind {
            PointerKind::Down => InteractState { active: true, ..self },
            PointerKind::Up => InteractState { active: false, ..self },
            PointerKind::Enter => InteractState { hovered: true, ..self },
            PointerKind::Leave => InteractState { hovered: false, ..self },
            _ => self,
        }
    }

    /// What a pointer event makes the node tell its listeners, in order. A
    /// button going up tells of a click only if the node was pressed.
    pub open spec fn emissions(self, kind: PointerKind) -> Seq<Emission> {
        match kind {
            PointerKind::Down => seq![
                Emission::StateChanged(self.after(kind)),
                Emission::Active(true),
            ],
            PointerKind::Up => if self.active {
                seq![Emission::StateChanged(self.after(kind)), Emission::Clicked]
            } else {
                Seq::empty()
            },
            PointerKind::Enter => seq![
                Emission::StateChanged(self.after(kind)),
                Emission::Hovered(true),
            ],
            PointerKind::Leave => seq![
                Emission::StateChanged(self.after(kind)),
                Emission::Hovered(false),
            ],
            _ => Seq::empty(),
        }
    }

    /// Takes a pointer event in: moves to the state after it and gives what
    /// to tell the listeners, in order.
    pub fn event(&mut self, kind: PointerKind) -> (r: Vec<Emission>)
        ensures
            *final(self) == old(self).after(kind),
            r@ == old(self).emissions(kind),
    {
        let mut out: Vec<Emission> = Vec::new();
        match kind {
            PointerKind::Down => {
                self.active = true;
                out.push(Emission::StateChanged(*self));
                out.push(Emission::Active(true));
            },
            PointerKind::Up => {
                if self.active {
                    self.active = false;
                    out.push(Emission::StateChanged(*self));
                    out.push(Emission::Clicked);
                }
            },
            PointerKind::Enter => {
                self.hovered = true;
                out.push(Emission::StateChanged(*self));
                out.push(Emission::Hovered(true));
            },
            PointerKind::Leave => {
                self.hovered = false;
                out.push(Emission::StateChanged(*self));
                out.push(Emission::Hovered(false));
            },
            _ => {},
        }
        assert(out@ =~= old(self).emissions(kind));
        out
    }
}

} // verus!
