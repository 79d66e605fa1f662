use uicore::dispatch::{dispatch_event, InputState};
use uicore::event::{
    Dispatch, MouseButton, PointerButton, PointerButtons, PointerEvent, PointerKind, Position,
};
use uicore::tree::arena::Tree;
use uicore::tree::model::Element;

const DEVICE: u64 = 1;
const DOUBLE_CLICK: u64 = 500;

fn at(x: i64, y: i64) -> Position {
    Position { x, y }
}

fn el(id: usize) -> Element {
    Element { id }
}

fn move_event(position: Position) -> PointerEvent {
    PointerEvent {
        kind: PointerKind::Move,
        position,
        modifiers: 0,
        buttons: PointerButtons { bits: 0 },
        button: None,
        repeat_count: 0,
        request_capture: false,
    }
}

fn summary(plan: &Vec<Dispatch>) -> Vec<(usize, PointerKind, bool)> {
    plan.iter().map(|d| (d.target.id, d.event.kind, d.bubbling)).collect()
}

#[test]
fn repeat_count_counts_clicks_at_one_place() {
    let mut input = InputState::new();
    let p = at(10, 20);
    let mut counts = Vec::new();
    for now in [1000u64, 1100, 1200] {
        let down = input
            .convert_mouse_input(DEVICE, MouseButton::Left, true, p, now, DOUBLE_CLICK)
            .unwrap();
        assert_eq!(down.kind, PointerKind::Down);
        counts.push(down.repeat_count);
    }
    assert_eq!(counts, vec![1, 2, 3]);
    let moved = input
        .convert_mouse_input(DEVICE, MouseButton::Left, true, at(40, 20), 1300, DOUBLE_CLICK)
        .unwrap();
    assert_eq!(moved.repeat_count, 1);
    assert_eq!(moved.position, at(40, 20));
}

#[test]
fn repeat_count_resets_on_any_mismatch() {
    let p = at(1, 1);
    let press = |input: &mut InputState, device, button, now| {
        input.convert_mouse_input(device, button, true, p, now, DOUBLE_CLICK).unwrap().repeat_count
    };
    let mut input = InputState::new();
    assert_eq!(press(&mut input, DEVICE, MouseButton::Left, 0), 1);
    assert_eq!(press(&mut input, DEVICE, MouseButton::Right, 10), 1);
    assert_eq!(press(&mut input, DEVICE, MouseButton::Right, 20), 2);
    assert_eq!(press(&mut input, 2, MouseButton::Right, 30), 1);
    // the double-click time is measured from the last press of the run
    assert_eq!(press(&mut input, 2, MouseButton::Right, 529), 2);
    assert_eq!(press(&mut input, 2, MouseButton::Right, 1028), 3);
    assert_eq!(press(&mut input, 2, MouseButton::Right, 1528), 1);
}

#[test]
fn a_run_goes_on_while_each_press_follows_the_last_in_time() {
    let mut input = InputState::new();
    let p = at(3, 3);
    let mut counts = Vec::new();
    for now in [1000u64, 1400, 1800, 2200] {
        let down = input.convert_mouse_input(DEVICE, MouseButton::Left, true, p, now, DOUBLE_CLICK);
        counts.push(down.unwrap().repeat_count);
    }
    assert_eq!(counts, vec![1, 2, 3, 4]);
    assert_eq!(input.last_click.unwrap().time, 2200);
    // a release does not move the time of the last press
    input.convert_mouse_input(DEVICE, MouseButton::Left, false, p, 2300, DOUBLE_CLICK);
    assert_eq!(input.last_click.unwrap().time, 2200);
    let late = input.convert_mouse_input(DEVICE, MouseButton::Left, true, p, 2700, DOUBLE_CLICK);
    assert_eq!(late.unwrap().repeat_count, 1);
}

#[test]
fn release_reads_the_count_and_never_counts_up() {
    let mut input = InputState::new();
    let p = at(5, 5);
    let down = input.convert_mouse_input(DEVICE, MouseButton::Left, true, p, 0, DOUBLE_CLICK);
    assert_eq!(down.unwrap().repeat_count, 1);
    let up = input.convert_mouse_input(DEVICE, MouseButton::Left, false, p, 10, DOUBLE_CLICK).unwrap();
    assert_eq!(up.kind, PointerKind::Up);
    assert_eq!(up.repeat_count, 1);
    let down = input.convert_mouse_input(DEVICE, MouseButton::Left, true, p, 20, DOUBLE_CLICK);
    assert_eq!(down.unwrap().repeat_count, 2);
    let up = input.convert_mouse_input(DEVICE, MouseButton::Left, false, p, 30, DOUBLE_CLICK).unwrap();
    assert_eq!(up.repeat_count, 2);
    assert_eq!(input.last_click.unwrap().repeat_count, 2);
    // a release that continues no run forgets the run
    let up = input.convert_mouse_input(DEVICE, MouseButton::Left, false, at(9, 9), 40, DOUBLE_CLICK);
    assert_eq!(up.unwrap().repeat_count, 1);
    assert!(input.last_click.is_none());
}

#[test]
fn repeat_count_in_the_event_keeps_the_low_byte() {
    let mut input = InputState::new();
    let p = at(0, 0);
    let mut last = 0;
    for _ in 0..257 {
        last = input
            .convert_mouse_input(DEVICE, MouseButton::Left, true, p, 0, DOUBLE_CLICK)
            .unwrap()
            .repeat_count;
    }
    assert_eq!(input.last_click.unwrap().repeat_count, 257);
    assert_eq!(last, 1);
}

#[test]
fn buttons_are_tracked_and_extended_buttons_ignored() {
    let mut input = InputState::new();
    let p = at(0, 0);
    let down = input.convert_mouse_input(DEVICE, MouseButton::Back, true, p, 0, DOUBLE_CLICK).unwrap();
    assert_eq!(down.button, Some(PointerButton::X1));
    assert!(down.buttons.test(PointerButton::X1));
    assert!(input.pointer_buttons.test(PointerButton::X1));
    assert!(!input.pointer_buttons.test(PointerButton::Left));
    assert!(input.convert_mouse_input(DEVICE, MouseButton::Other(9), true, p, 0, DOUBLE_CLICK).is_none());
    assert_eq!(input.pointer_buttons.bits, 8);
    let up = input.convert_mouse_input(DEVICE, MouseButton::Back, false, p, 1, DOUBLE_CLICK).unwrap();
    assert!(!up.buttons.test(PointerButton::X1));
    assert_eq!(input.pointer_buttons.bits, 0);
}

#[test]
fn enter_and_leave_follow_the_hit_sets() {
    let (root, container, leaf1, leaf2) = (el(0), el(1), el(2), el(3));
    let mut input = InputState::new();
    let first = input.dispatch_pointer_event(&vec![root, container, leaf1], move_event(at(1, 1)));
    assert_eq!(
        summary(&first),
        vec![
            (leaf1.id, PointerKind::Move, true),
            (leaf1.id, PointerKind::Over, true),
            (root.id, PointerKind::Enter, false),
            (container.id, PointerKind::Enter, false),
            (leaf1.id, PointerKind::Enter, false),
        ]
    );
    let second = input.dispatch_pointer_event(&vec![root, container, leaf2], move_event(at(9, 1)));
    assert_eq!(
        summary(&second),
        vec![
            (leaf2.id, PointerKind::Move, true),
            (leaf1.id, PointerKind::Out, true),
            (leaf1.id, PointerKind::Leave, false),
            (leaf2.id, PointerKind::Over, true),
            (leaf2.id, PointerKind::Enter, false),
        ]
    );
    for d in &second[1..] {
        assert!(d.target != root && d.target != container);
        assert_eq!(d.event.position, at(9, 1));
        assert_eq!(d.event.button, None);
        assert_eq!(d.event.repeat_count, 0);
    }
    assert_eq!(input.last_innermost_hit, Some(leaf2));
    assert_eq!(input.last_hits, vec![root, container, leaf2]);
}

#[test]
fn same_hits_give_only_the_event_itself() {
    let mut input = InputState::new();
    let hits = vec![el(0), el(4), el(2)];
    input.dispatch_pointer_event(&hits, move_event(at(0, 0)));
    assert_eq!(input.last_hits, vec![el(0), el(2), el(4)]);
    let again = input.dispatch_pointer_event(&hits, move_event(at(1, 0)));
    assert_eq!(summary(&again), vec![(2, PointerKind::Move, true)]);
}

#[test]
fn leaving_everything_delivers_out_and_leave_only() {
    let mut input = InputState::new();
    input.dispatch_pointer_event(&vec![el(3), el(1)], move_event(at(0, 0)));
    let gone = input.dispatch_pointer_event(&vec![], move_event(at(50, 50)));
    assert_eq!(
        summary(&gone),
        vec![
            (1, PointerKind::Out, true),
            (1, PointerKind::Leave, false),
            (3, PointerKind::Leave, false),
        ]
    );
    assert_eq!(input.last_innermost_hit, None);
    assert!(input.last_hits.is_empty());
}

#[test]
fn capture_takes_one_event_whatever_is_hit() {
    let mut input = InputState::new();
    input.set_pointer_capture(el(7));
    let plan = input.dispatch_pointer_event(&vec![el(0), el(1)], move_event(at(0, 0)));
    assert_eq!(plan[0].target, el(7));
    assert!(plan[0].bubbling);
    assert_eq!(input.pointer_grab, None);
    let plan = input.dispatch_pointer_event(&vec![el(0), el(1)], move_event(at(0, 1)));
    assert_eq!(summary(&plan), vec![(1, PointerKind::Move, true)]);
    // captured with nothing hit
    input.set_pointer_capture(el(7));
    let plan = input.dispatch_pointer_event(&vec![], move_event(at(90, 90)));
    assert_eq!(plan[0].target, el(7));
}

#[test]
fn nodes_ask_for_focus_and_capture() {
    let mut input = InputState::new();
    let node = el(5);
    assert!(!node.has_focus(&input));
    node.set_focus(&mut input);
    assert!(node.has_focus(&input));
    assert!(!el(6).has_focus(&input));
    node.set_pointer_capture(&mut input);
    assert_eq!(input.pointer_grab, Some(node));
    input.release_pointer_capture();
    assert_eq!(input.pointer_grab, None);
    let plan = input.dispatch_pointer_event(&vec![el(1)], move_event(at(0, 0)));
    assert_eq!(plan[0].target, el(1));
}

#[test]
fn focus_is_one_node_at_a_time() {
    let mut input = InputState::new();
    assert_eq!(input.keyboard_target(), None);
    input.set_focus(el(2));
    assert!(input.is_focused(el(2)));
    assert!(!input.is_focused(el(3)));
    input.set_focus(el(3));
    assert!(!input.is_focused(el(2)));
    assert_eq!(input.keyboard_target(), Some(el(3)));
}

#[test]
fn events_bubble_from_the_target_to_the_root() {
    let mut tree: Tree<(), ()> = Tree::new();
    let root = Element::new(&mut tree, (), ());
    let mid = Element::new(&mut tree, (), ());
    let leaf = Element::new(&mut tree, (), ());
    let stray = Element::new(&mut tree, (), ());
    root.add_child(&mut tree, &mid);
    mid.add_child(&mut tree, &leaf);
    assert_eq!(dispatch_event(&tree, root, leaf, true), vec![leaf, mid, root]);
    assert_eq!(dispatch_event(&tree, root, leaf, false), vec![leaf]);
    assert_eq!(dispatch_event(&tree, root, root, true), vec![root]);
    // a target that does not hang below the root is dropped
    assert!(dispatch_event(&tree, root, stray, true).is_empty());
    assert!(dispatch_event(&tree, root, el(99), true).is_empty());
    leaf.detach(&mut tree);
    assert!(dispatch_event(&tree, root, leaf, true).is_empty());
    // the root of the window must be the top of the chain
    assert!(dispatch_event(&tree, mid, mid, false).is_empty());
}
