//! What a window does with the events that the platform reports for it:
//! which deliveries, emissions and redraws each event leads to.

use crate::dispatch::{click_after, InputState};
use crate::event::{Dispatch, MouseButton, PointerButtons, PointerEvent, PointerKind, Position};
use crate::tree::model::Element;
use vstd::prelude::*;

verus! {

/// An event that the platform reports for a window, as plain values.
#[derive(Copy, Clone, Debug, PartialEq, Eq, Structural)]
pub enum WindowEvent {
    /// The pointer moved to a position.
    CursorMoved { position: Position },
    /// A finger touched the window at a position.
    Touch { position: Position },
    /// A key went down or up.
    KeyboardInput,
    /// A pointer button went down or up.
    MouseInput { device_id: u64, button: MouseButton, pressed: bool },
    /// The user asked to close the window.
    CloseRequested,
    /// The window has a new size, in pixels.
    Resized { width: u32, height: u32 },
    /// The window gained or lost the focus.
    Focused(bool),
    /// The window is to be drawn again.
    RedrawRequested,
    /// Any other event.
    Other,
}

/// One thing that a window does in answer to an event.
#[derive(Copy, Clone, Debug, PartialEq, Eq, Structural)]
pub enum WindowAction {
    /// Hand the event to the popup window with this identifier, and do
    /// nothing else with it.
    Redirect(u64),
    /// Deliver a pointer event to a node.
    Dispatch(Dispatch),
    /// Deliver the keyboard event to the node that has the focus.
    DispatchKey(Element),
    /// Ask the platform to have the window drawn again.
    RequestRedraw,
    /// Tell the listeners that the user asked to close the window.
    EmitCloseRequested,
    /// Tell the listeners of the new size.
    EmitResized { width: u32, height: u32 },
    /// Give the compositor layer of the window the new size.
    ResizeLayer { width: u32, height: u32 },
    /// Tell the listeners that the window gained or lost the focus.
    EmitFocusChanged(bool),
    /// Draw the window.
    Redraw,
}

/// One step of drawing a window.
#[derive(Copy, Clone, Debug, PartialEq, Eq, Structural)]
pub enum RedrawStep {
    /// Lay the tree out again, from the root.
    Layout,
    /// Paint the tree.
    Paint,
    /// Show the window, which was hidden until its first frame was painted.
    Reveal,
    /// Wait until the compositor is ready for the next frame.
    WaitForPresentation,
}

/// What a window remembers between events.
pub struct WindowState {
    pub input: InputState,
    /// Where the pointer was last seen.
    pub cursor_pos: Position,
    /// Whether the window is still hidden because nothing was drawn yet.
    pub hidden_before_first_draw: bool,
    /// The popup window that keyboard events are handed to, if there is one.
    pub popup: Option<u64>,
}

/// One delivery for each entry of a plan, in order.
pub open spec fn dispatch_actions(plan: Seq<Dispatch>) -> Seq<WindowAction> {
    Seq::new(plan.len(), |i: int| WindowAction::Dispatch(plan[i]))
}

impl WindowState {
    /// The invariant of the window state.
    pub open spec fn wf(&self) -> bool {
        self.input.wf()
    }

    /// Whether an event is handed to the popup window: there is one, it is
    /// alive, and the event comes from the keyboard.
    pub open spec fn redirects(&self, event: WindowEvent, popup_alive: bool) -> bool {
        self.popup is Some && popup_alive && event is KeyboardInput
    }

    /// The popup window after an event: one that is no longer alive is
    /// forgotten.
    pub open spec fn popup_after(&self, popup_alive: bool) -> Option<u64> {
        if popup_alive {
            self.popup
        } else {
            None
        }
    }

    /// The event that a move of the pointer to `position` delivers.
    pub open spec fn move_event(&self, position: Position) -> PointerEvent {
        PointerEvent {
            kind: PointerKind::Move,
            position,
            modifiers: self.input.modifiers,
            buttons: self.input.pointer_buttons,
            button: None,
            repeat_count: 0,
            request_capture: false,
        }
    }

    /// What the window does in answer to an event, in order. `hits` is the
    /// hit-test path at the position of the event.
    pub open spec fn actions(
        &self,
        event: WindowEvent,
        popup_alive: bool,
        hits: Seq<Element>,
        now: u64,
        double_click_time: u64,
    ) -> Seq<WindowAction> {
        if self.redirects(event, popup_alive) {
            seq![WindowAction::Redirect(self.popup->0)]
        } else {
            match event {
                WindowEvent::CursorMoved { position } => dispatch_actions(
                    self.input.plan(hits, self.move_event(position)),
                ).push(WindowAction::RequestRedraw),
                WindowEvent::Touch { position } => seq![WindowAction::RequestRedraw],
                WindowEvent::KeyboardInput => (match self.input.focus {
                    Some(f) => seq![WindowAction::DispatchKey(f)],
                    None => Seq::empty(),
                }).push(WindowAction::RequestRedraw),
                WindowEvent::MouseInput { device_id, button, pressed } => match button.spec_pointer_button() {
                    Some(b) => dispatch_actions(
                        self.input.clicked(
                            device_id,
                            b,
                            pressed,
                            self.cursor_pos,
                            now,
                            double_click_time,
                        ).plan(
                            hits,
                            self.input.mouse_event(
                                device_id,
                                b,
                                pressed,
                                self.cursor_pos,
                                now,
                                double_click_time,
                            ),
                        ),
                    ),
                    None => Seq::empty(),
                },
                WindowEvent::CloseRequested => seq![WindowAction::EmitCloseRequested],
                WindowEvent::Resized { width, height } => if width != 0 && height != 0 {
                    seq![
                        WindowAction::EmitResized { width, height },
                        WindowAction::ResizeLayer { width, height },
                    ]
                } else {
                    seq![WindowAction::EmitResized { width, height }]
                },
                WindowEvent::Focused(focused) => seq![WindowAction::EmitFocusChanged(focused)],
                WindowEvent::RedrawRequested => seq![WindowAction::Redraw],
                WindowEvent::Other => Seq::empty(),
            }
        }
    }

    /// Where the pointer is after an event.
    pub open spec fn cursor_after(&self, event: WindowEvent, popup_alive: bool) -> Position {
        if self.redirects(event, popup_alive) {
            self.cursor_pos
        } else {
            match event {
                WindowEvent::CursorMoved { position } => position,
                WindowEvent::Touch { position } => position,
                _ => self.cursor_pos,
            }
        }
    }

    /// Whether an event is routed as a pointer event, so that the capture
    /// is released and the hits are remembered.
    pub open spec fn routes(&self, event: WindowEvent, popup_alive: bool) -> bool {
        !self.redirects(event, popup_alive) && match event {
            WindowEvent::CursorMoved { position } => true,
            WindowEvent::MouseInput { device_id, button, pressed } => button.spec_pointer_button()
                is Some,
            _ => false,
        }
    }

    /// The state of a window that has seen no event and was not drawn yet.
    pub fn new() -> (r: WindowState)
        ensures
            r.wf(),
            r.cursor_pos == (Position { x: 0, y: 0 }),
            r.hidden_before_first_draw,
            r.popup is None,
            r.input.focus is None,
            r.input.pointer_grab is None,
            r.input.last_click is None,
            r.input.last_innermost_hit is None,
            r.input.last_hits@.len() == 0,
            r.input.pointer_buttons.bits == 0,
            r.input.modifiers == 0,
    {
        WindowState {
            input: InputState::new(),
            cursor_pos: Position { x: 0, y: 0 },
            hidden_before_first_draw: true,
            popup: None,
        }
    }

    /// Makes the window with identifier `popup` the popup of this window.
    pub fn set_popup(&mut self, popup: u64)
        ensures
            final(self).popup == Some(popup),
            final(self).input == old(self).input,
            final(self).cursor_pos == old(self).cursor_pos,
            final(self).hidden_before_first_draw == old(self).hidden_before_first_draw,
    {
        self.popup = Some(popup);
    }

    /// Takes an event of the platform in and gives what the window does in
    /// answer, in order.
    ///
    /// `popup_alive` says whether the window has a popup that still exists;
    /// `hits` is the hit-test path at the pointer's position, which for a
    /// move of the pointer is the new position; `now` is the time of the
    /// event and `double_click_time` the platform's double-click time, in
    /// milliseconds.
    pub fn dispatch_window_event(
        &mut self,
        event: WindowEvent,
        popup_alive: bool,
        hits: &Vec<Element>,
        now: u64,
        double_click_time: u64,
    ) -> (r: Vec<WindowAction>)
        requires
            old(self).wf(),
        ensures
            final(self).wf(),
            r@ == old(self).actions(event, popup_alive, hits@, now, double_click_time),
            final(self).popup == old(self).popup_after(popup_alive),
            final(self).cursor_pos == old(self).cursor_after(event, popup_alive),
            final(self).hidden_before_first_draw == old(self).hidden_before_first_draw,
            final(self).input.modifiers == old(self).input.modifiers,
            final(self).input.focus == old(self).input.focus,
            old(self).routes(event, popup_alive) ==> final(self).input.pointer_grab is None
                && final(self).input.last_hits@ == crate::dispatch::to_set(hits@)
                && final(self).input.last_innermost_hit == InputState::innermost(hits@),
            !old(self).routes(event, popup_alive) ==> final(self).input.pointer_grab == old(
                self,
            ).input.pointer_grab && final(self).input.last_hits@ == old(self).input.last_hits@
                && final(self).input.last_innermost_hit == old(self).input.last_innermost_hit
                && final(self).input.pointer_buttons == old(self).input.pointer_buttons
                && final(self).input.last_click == old(self).input.last_click,
            match event {
                WindowEvent::MouseInput { device_id, button, pressed } => !old(self).redirects(
                    event,
                    popup_alive,
                ) && button.spec_pointer_button() is Some ==> {
                    let b = button.spec_pointer_button()->0;
                    &&& final(self).input.pointer_buttons == old(self).input.buttons_after(
                        b,
                        pressed,
                    )
                    &&& final(self).input.last_click == click_after(
                        old(self).input.last_click,
                        device_id,
                        b,
                        old(self).cursor_pos,
                        now,
                        pressed,
                        double_click_time,
                    )
                },
                _ => old(self).routes(event, popup_alive) ==> final(self).input.pointer_buttons
                    == old(self).input.pointer_buttons && final(self).input.last_click == old(
                    self,
                ).input.last_click,
            },
    {
        let mut out: Vec<WindowAction> = Vec::new();
        match self.popup {
            Some(id) => {
                if popup_alive {
                    match event {
                        WindowEvent::KeyboardInput => {
                            out.push(WindowAction::Redirect(id));
                            assert(out@ =~= old(self).actions(
                                event,
                                popup_alive,
                                hits@,
                                now,
                                double_click_time,
                            ));
                            return out;
                        },
                        _ => {},
                    }
                } else {
                    self.popup = None;
                }
            },
            None => {},
        }
        match event {
            WindowEvent::CursorMoved { position } => {
                self.cursor_pos = position;
                let moved = PointerEvent {
                    kind: PointerKind::Move,
                    position,
                    modifiers: self.input.modifiers,
                    buttons: self.input.pointer_buttons,
                    button: None,
                    repeat_count: 0,
                    request_capture: false,
                };
                let plan = self.input.dispatch_pointer_event(hits, moved);
                push_dispatches(&mut out, &plan);
                out.push(WindowAction::RequestRedraw);
            },
            WindowEvent::Touch { position } => {
                self.cursor_pos = position;
                out.push(WindowAction::RequestRedraw);
            },
            WindowEvent::KeyboardInput => {
                match self.input.keyboard_target() {
                    Some(f) => {
                        out.push(WindowAction::DispatchKey(f));
                    },
                    None => {},
                }
                out.push(WindowAction::RequestRedraw);
            },
            WindowEvent::MouseInput { device_id, button, pressed } => {
                let converted = self.input.convert_mouse_input(
                    device_id,
                    button,
                    pressed,
                    self.cursor_pos,
                    now,
                    double_click_time,
                );
                let ghost mid = self.input;
                match converted {
                    Some(pointer_event) => {
                        let plan = self.input.dispatch_pointer_event(hits, pointer_event);
                        push_dispatches(&mut out, &plan);
                    },
                    None => {},
                }
            },
            WindowEvent::CloseRequested => {
                out.push(WindowAction::EmitCloseRequested);
            },
            WindowEvent::Resized { width, height } => {
                out.push(WindowAction::EmitResized { width, height });
                if width != 0 && height != 0 {
                    out.push(WindowAction::ResizeLayer { width, height });
                }
            },
            WindowEvent::Focused(focused) => {
                out.push(WindowAction::EmitFocusChanged(focused));
            },
            WindowEvent::RedrawRequested => {
                out.push(WindowAction::Redraw);
            },
            WindowEvent::Other => {},
        }
        assert(out@ =~= old(self).actions(event, popup_alive, hits@, now, double_click_time));
        out
    }

    /// The steps of drawing the window, in order. Nothing is drawn while the
    /// window has no area. The tree is laid out first if its root needs it;
    /// after the first frame was painted the window is shown.
    pub fn do_redraw(&mut self, width: u32, height: u32, root_needs_relayout: bool) -> (r: Vec<
        RedrawStep,
    >)
        ensures
            r@ == if width == 0 || height == 0 {
                Seq::<RedrawStep>::empty()
            } else {
                (if root_needs_relayout {
                    seq![RedrawStep::Layout]
                } else {
                    Seq::empty()
                }) + seq![RedrawStep::Paint] + (if old(self).hidden_before_first_draw {
                    seq![RedrawStep::Reveal]
                } else {
                    Seq::empty()
                }) + seq![RedrawStep::WaitForPresentation]
            },
            final(self).hidden_before_first_draw == (old(self).hidden_before_first_draw && (width
                == 0 || height == 0)),
            final(self).input == old(self).input,
            final(self).cursor_pos == old(self).cursor_pos,
            final(self).popup == old(self).popup,
    {
        let mut out: Vec<RedrawStep> = Vec::new();
        if width == 0 || height == 0 {
            return out;
        }
        if root_needs_relayout {
            out.push(RedrawStep::Layout);
        }
        out.push(RedrawStep::Paint);
        if self.hidden_before_first_draw {
            self.hidden_before_first_draw = false;
            out.push(RedrawStep::Reveal);
        }
        out.push(RedrawStep::WaitForPresentation);
        assert(out@ =~= (if root_needs_relayout {
            seq![RedrawStep::Layout]
        } else {
            Seq::empty()
        }) + seq![RedrawStep::Paint] + (if old(self).hidden_before_first_draw {
            seq![RedrawStep::Reveal]
        } else {
            Seq::empty()
        }) + seq![RedrawStep::WaitForPresentation]);
        out
    }
}

/// Appends one delivery for each entry of `plan`, in order.
fn push_dispatches(out: &mut Vec<WindowAction>, plan: &Vec<Dispatch>)
    ensures
        final(out)@ == old(out)@ + dispatch_actions(plan@),
{
    let mut i: usize = 0;
    while i < plan.len()
        invariant
            0 <= i <= plan@.len(),
            out@ == old(out)@ + dispatch_actions(plan@).subrange(0, i as int),
        decreases plan@.len() - i,
    {
        out.push(WindowAction::Dispatch(plan[i]));
        i = i + 1;
        assert(out@ =~= old(out)@ + dispatch_actions(plan@).subrange(0, i as int));
    }
    assert(dispatch_actions(plan@).subrange(0, i as int) =~= dispatch_actions(plan@));
}

} // verus!
