use uicore::app_globals::{AppGlobals, Registry};
use uicore::compositor::{ColorType, Compositor, LayerInfo};
use uicore::event::{MouseButton, PointerButton, PointerButtons, PointerKind};
use uicore::flags::ChangeFlags;
use uicore::interact::{Emission, InteractState};
use uicore::layout::{Axis, CrossAxisAlignment, MainAxisAlignment};
use uicore::text::{CustomFontAxisValue, Selection};
use uicore::visual::{NullVisual, VisualDelegate};

#[test]
fn selection_ends() {
    let backwards = Selection { start: 7, end: 3 };
    assert_eq!(backwards.min(), 3);
    assert_eq!(backwards.max(), 7);
    assert_eq!(backwards.byte_range(), 3..7);
    assert!(!backwards.is_empty());
    let forwards = Selection { start: 2, end: 9 };
    assert_eq!(forwards.byte_range(), 2..9);
    let caret = Selection::empty(4);
    assert!(caret.is_empty());
    assert_eq!(caret, Selection { start: 4, end: 4 });
    assert_eq!(caret.byte_range(), 4..4);
    assert_eq!(Selection::default(), Selection::empty(0));
}

#[test]
fn change_flags_are_a_bit_set() {
    assert_eq!(ChangeFlags::paint().bits(), 1);
    assert_eq!(ChangeFlags::layout().bits(), 2);
    assert_eq!(ChangeFlags::none().bits(), 0);
    assert_eq!(ChangeFlags::layout().union(ChangeFlags::paint()), ChangeFlags::all());
    assert!(ChangeFlags::all().contains(ChangeFlags::layout()));
    assert!(!ChangeFlags::paint().contains(ChangeFlags::layout()));
    assert!(ChangeFlags::paint().contains(ChangeFlags::none()));
    assert_eq!(ChangeFlags::all().difference(ChangeFlags::layout()), ChangeFlags::paint());
    assert!(ChangeFlags::none().is_empty());
    assert!(!ChangeFlags::paint().is_empty());
    assert_eq!(ChangeFlags::default(), ChangeFlags::none());
}

#[test]
fn buttons_map_to_bits() {
    assert_eq!(MouseButton::Left.pointer_button(), Some(PointerButton::Left));
    assert_eq!(MouseButton::Right.pointer_button(), Some(PointerButton::Right));
    assert_eq!(MouseButton::Middle.pointer_button(), Some(PointerButton::Middle));
    assert_eq!(MouseButton::Back.pointer_button(), Some(PointerButton::X1));
    assert_eq!(MouseButton::Forward.pointer_button(), Some(PointerButton::X2));
    assert_eq!(MouseButton::Other(3).pointer_button(), None);
    let mut held = PointerButtons::new();
    held.set(PointerButton::Left);
    held.set(PointerButton::X2);
    assert_eq!(held.bits, 17);
    assert!(held.test(PointerButton::X2));
    held.reset(PointerButton::Left);
    assert_eq!(held.bits, 16);
    assert!(!held.test(PointerButton::Left));
}

#[test]
fn interaction_states() {
    let mut state = InteractState::default();
    let pressed = InteractState { active: true, hovered: false, focused: false };
    assert_eq!(
        state.event(PointerKind::Down),
        vec![Emission::StateChanged(pressed), Emission::Active(true)]
    );
    assert_eq!(state, pressed);
    assert_eq!(
        state.event(PointerKind::Up),
        vec![Emission::StateChanged(InteractState::default()), Emission::Clicked]
    );
    // a release without a press is no click
    assert!(state.event(PointerKind::Up).is_empty());
    let hovered = InteractState { active: false, hovered: true, focused: false };
    assert_eq!(
        state.event(PointerKind::Enter),
        vec![Emission::StateChanged(hovered), Emission::Hovered(true)]
    );
    assert!(state.event(PointerKind::Move).is_empty());
    assert_eq!(
        state.event(PointerKind::Leave),
        vec![Emission::StateChanged(InteractState::default()), Emission::Hovered(false)]
    );
}

#[test]
fn globals_are_found_while_the_application_runs() {
    let mut registry = Registry::new();
    assert_eq!(AppGlobals::try_get(&registry), None);
    let app = AppGlobals::new(&mut registry, 500);
    assert_eq!(app.double_click_time(), 500);
    assert_eq!(AppGlobals::try_get(&registry), Some(app));
    assert_eq!(AppGlobals::get(&registry).double_click_time(), 500);
    let other = AppGlobals::new(&mut registry, 250);
    assert_eq!(AppGlobals::get(&registry), other);
    AppGlobals::teardown(&mut registry);
    assert_eq!(AppGlobals::try_get(&registry), None);
}

#[test]
fn layers_keep_their_sizes() {
    let mut compositor = Compositor::new();
    let first = compositor.create_surface_layer(800, 600, ColorType::RGBAF16);
    let second = compositor.create_surface_layer(10, 20, ColorType::Gray8);
    assert_eq!(first.id, 0);
    assert_eq!(second.id, 1);
    first.set_surface_size(&mut compositor, 1024, 768);
    assert_eq!(
        compositor.layers,
        vec![
            LayerInfo { width: 1024, height: 768, format: ColorType::RGBAF16 },
            LayerInfo { width: 10, height: 20, format: ColorType::Gray8 }
        ]
    );
}

#[test]
fn layout_vocabulary() {
    assert_eq!(Axis::default(), Axis::Vertical);
    assert_eq!(MainAxisAlignment::default(), MainAxisAlignment::Start);
    assert_eq!(CrossAxisAlignment::default(), CrossAxisAlignment::Start);
    assert_eq!(Axis::Vertical.cross(), Axis::Horizontal);
    assert_eq!(Axis::Horizontal.cross(), Axis::Vertical);
    assert_eq!(Axis::Horizontal.width_height(3, 4), (3, 4));
    assert_eq!(Axis::Vertical.width_height(3, 4), (4, 3));
    assert!(CustomFontAxisValue(3) < CustomFontAxisValue(4));
}

#[test]
fn the_null_visual_is_never_hit() {
    assert!(!NullVisual.hit_test(true));
    assert!(!NullVisual.hit_test(false));
}

#[test]
fn test_im() {
    let mut ordmap_1 = imbl::OrdMap::new();
    ordmap_1.insert(1, "a");
    ordmap_1.insert(2, "b");
    ordmap_1.insert(3, "c");
    let mut ordmap_2 = imbl::OrdMap::new();
    ordmap_2.insert(1, "d");
    ordmap_1 = ordmap_2.union(ordmap_1);
    assert_eq!(ordmap_1.get(&1), Some(&"d"));
    assert_eq!(ordmap_1.get(&2), Some(&"b"));
    assert_eq!(ordmap_1.get(&3), Some(&"c"));
    assert_eq!(ordmap_1.len(), 3);
}
