use uicore::event::{MouseButton, PointerKind, Position};
use uicore::tree::model::Element;
use uicore::window::{RedrawStep, WindowAction, WindowEvent, WindowState};

const DCT: u64 = 500;

fn el(id: usize) -> Element {
    Element { id }
}

fn kinds(actions: &Vec<WindowAction>) -> Vec<(usize, PointerKind)> {
    let mut out = Vec::new();
    for a in actions {
        if let WindowAction::Dispatch(d) = a {
            out.push((d.target.id, d.event.kind));
        }
    }
    out
}

#[test]
fn cursor_moves_are_routed_and_ask_for_a_redraw() {
    let mut window = WindowState::new();
    let position = Position { x: 30, y: 40 };
    let actions = window.dispatch_window_event(
        WindowEvent::CursorMoved { position },
        false,
        &vec![el(0), el(1)],
        0,
        DCT,
    );
    assert_eq!(window.cursor_pos, position);
    assert_eq!(
        kinds(&actions),
        vec![
            (1, PointerKind::Move),
            (1, PointerKind::Over),
            (0, PointerKind::Enter),
            (1, PointerKind::Enter),
        ]
    );
    assert_eq!(actions.last(), Some(&WindowAction::RequestRedraw));
    assert_eq!(actions.len(), 5);
}

#[test]
fn mouse_input_is_delivered_at_the_cursor() {
    let mut window = WindowState::new();
    let position = Position { x: 3, y: 4 };
    let hits = vec![el(0)];
    window.dispatch_window_event(WindowEvent::CursorMoved { position }, false, &hits, 0, DCT);
    let press = WindowEvent::MouseInput { device_id: 1, button: MouseButton::Left, pressed: true };
    let first = window.dispatch_window_event(press, false, &hits, 10, DCT);
    let second = window.dispatch_window_event(press, false, &hits, 20, DCT);
    match (&first[..], &second[..]) {
        ([WindowAction::Dispatch(a)], [WindowAction::Dispatch(b)]) => {
            assert_eq!(a.target, el(0));
            assert_eq!(a.event.kind, PointerKind::Down);
            assert_eq!(a.event.position, position);
            assert_eq!(a.event.repeat_count, 1);
            assert_eq!(b.event.repeat_count, 2);
            assert!(a.bubbling);
        }
        other => panic!("unexpected actions: {:?}", other),
    }
    let extended = WindowEvent::MouseInput { device_id: 1, button: MouseButton::Other(7), pressed: true };
    assert!(window.dispatch_window_event(extended, false, &hits, 30, DCT).is_empty());
}

#[test]
fn a_press_away_from_the_last_hits_tells_of_held_buttons() {
    let mut window = WindowState::new();
    let press = WindowEvent::MouseInput { device_id: 1, button: MouseButton::Left, pressed: true };
    let actions = window.dispatch_window_event(press, false, &vec![el(2)], 0, DCT);
    assert_eq!(
        kinds(&actions),
        vec![(2, PointerKind::Down), (2, PointerKind::Over), (2, PointerKind::Enter)]
    );
    for a in &actions[1..] {
        if let WindowAction::Dispatch(d) = a {
            assert_eq!(d.event.buttons.bits, 1);
        }
    }
}

#[test]
fn window_events_lead_to_emissions() {
    let mut window = WindowState::new();
    let none = Vec::new();
    assert_eq!(
        window.dispatch_window_event(WindowEvent::CloseRequested, false, &none, 0, DCT),
        vec![WindowAction::EmitCloseRequested]
    );
    assert_eq!(
        window.dispatch_window_event(
            WindowEvent::Resized { width: 800, height: 600 },
            false,
            &none,
            0,
            DCT
        ),
        vec![
            WindowAction::EmitResized { width: 800, height: 600 },
            WindowAction::ResizeLayer { width: 800, height: 600 }
        ]
    );
    assert_eq!(
        window.dispatch_window_event(
            WindowEvent::Resized { width: 0, height: 600 },
            false,
            &none,
            0,
            DCT
        ),
        vec![WindowAction::EmitResized { width: 0, height: 600 }]
    );
    assert_eq!(
        window.dispatch_window_event(WindowEvent::Focused(true), false, &none, 0, DCT),
        vec![WindowAction::EmitFocusChanged(true)]
    );
    assert_eq!(
        window.dispatch_window_event(WindowEvent::RedrawRequested, false, &none, 0, DCT),
        vec![WindowAction::Redraw]
    );
    assert!(window.dispatch_window_event(WindowEvent::Other, false, &none, 0, DCT).is_empty());
    let touch = WindowEvent::Touch { position: Position { x: 1, y: 2 } };
    assert_eq!(
        window.dispatch_window_event(touch, false, &none, 0, DCT),
        vec![WindowAction::RequestRedraw]
    );
    assert_eq!(window.cursor_pos, Position { x: 1, y: 2 });
}

#[test]
fn keyboard_input_goes_to_the_focus_or_to_a_live_popup() {
    let mut window = WindowState::new();
    let none = Vec::new();
    assert_eq!(
        window.dispatch_window_event(WindowEvent::KeyboardInput, false, &none, 0, DCT),
        vec![WindowAction::RequestRedraw]
    );
    window.input.set_focus(el(4));
    assert_eq!(
        window.dispatch_window_event(WindowEvent::KeyboardInput, false, &none, 0, DCT),
        vec![WindowAction::DispatchKey(el(4)), WindowAction::RequestRedraw]
    );
    window.set_popup(77);
    assert_eq!(
        window.dispatch_window_event(WindowEvent::KeyboardInput, true, &none, 0, DCT),
        vec![WindowAction::Redirect(77)]
    );
    // other events stay with the window
    assert_eq!(
        window.dispatch_window_event(WindowEvent::Focused(false), true, &none, 0, DCT),
        vec![WindowAction::EmitFocusChanged(false)]
    );
    assert_eq!(window.popup, Some(77));
    // a dead popup is forgotten
    assert_eq!(
        window.dispatch_window_event(WindowEvent::KeyboardInput, false, &none, 0, DCT),
        vec![WindowAction::DispatchKey(el(4)), WindowAction::RequestRedraw]
    );
    assert_eq!(window.popup, None);
}

#[test]
fn redraw_steps() {
    let mut window = WindowState::new();
    assert!(window.do_redraw(0, 600, true).is_empty());
    assert!(window.hidden_before_first_draw);
    assert_eq!(
        window.do_redraw(800, 600, true),
        vec![
            RedrawStep::Layout,
            RedrawStep::Paint,
            RedrawStep::Reveal,
            RedrawStep::WaitForPresentation
        ]
    );
    assert!(!window.hidden_before_first_draw);
    assert_eq!(
        window.do_redraw(800, 600, false),
        vec![RedrawStep::Paint, RedrawStep::WaitForPresentation]
    );
}
