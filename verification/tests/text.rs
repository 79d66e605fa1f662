use uicore::text::Scan::{Alnum, LeadingWhitespace, NotAlnum};
use uicore::text::{len_utf8, next_word_boundary, prev_word_boundary, scan_step, Selection};
use uicore::text_edit::{Key, TextEditState};

#[test]
fn next_word_boundary_passes_space_then_a_word() {
    let text = "hello world";
    assert_eq!(next_word_boundary(text, 0), 5);
    assert_eq!(next_word_boundary(text, 5), 11);
    assert_eq!(next_word_boundary(text, 7), 11);
    assert_eq!(next_word_boundary(text, 11), 11);
    assert_eq!(next_word_boundary("", 0), 0);
    assert_eq!(next_word_boundary("   ", 0), 3);
}

#[test]
fn next_word_boundary_stops_behind_one_other_character() {
    let text = "foo, bar";
    assert_eq!(next_word_boundary(text, 0), 3);
    assert_eq!(next_word_boundary(text, 3), 4);
    assert_eq!(next_word_boundary(text, 4), 8);
    assert_eq!(next_word_boundary("  ((x", 0), 3);
}

#[test]
fn word_boundaries_count_bytes_not_characters() {
    let text = "żółw  écoute";
    assert_eq!(text.len(), 16);
    assert_eq!(next_word_boundary(text, 0), 7);
    assert_eq!(next_word_boundary(text, 7), 16);
    assert_eq!(prev_word_boundary(text, 16), 9);
    assert_eq!(prev_word_boundary(text, 9), 0);
    assert_eq!(next_word_boundary("a😀b", 1), 5);
    assert_eq!(prev_word_boundary("a😀b", 5), 1);
}

#[test]
fn prev_word_boundary_mirrors_the_scan() {
    let text = "hello world";
    assert_eq!(prev_word_boundary(text, 11), 6);
    assert_eq!(prev_word_boundary(text, 6), 0);
    assert_eq!(prev_word_boundary(text, 5), 0);
    assert_eq!(prev_word_boundary(text, 0), 0);
    assert_eq!(prev_word_boundary("foo, bar", 4), 3);
    assert_eq!(prev_word_boundary("foo, bar", 5), 3);
}

fn editor(text: &str, start: usize, end: usize) -> TextEditState {
    let mut state = TextEditState::new();
    state.set_text(String::from(text));
    state.set_selection(Selection { start, end });
    state
}

#[test]
fn the_caret_moves_by_words() {
    let mut state = editor("one two", 0, 0);
    state.move_cursor_to_next_word(false);
    assert_eq!(state.selection(), Selection { start: 3, end: 3 });
    state.move_cursor_to_next_word(true);
    assert_eq!(state.selection(), Selection { start: 3, end: 7 });
    state.move_cursor_to_prev_word(true);
    assert_eq!(state.selection(), Selection { start: 3, end: 4 });
    state.move_cursor_to_prev_word(false);
    assert_eq!(state.selection(), Selection { start: 0, end: 0 });
}

#[test]
fn the_caret_moves_by_grapheme_clusters() {
    // "e" with a combining acute accent is one cluster of three bytes
    let mut state = editor("e\u{301}x", 0, 0);
    state.move_cursor_to_next_grapheme(false);
    assert_eq!(state.selection(), Selection { start: 3, end: 3 });
    state.move_cursor_to_next_grapheme(true);
    assert_eq!(state.selection(), Selection { start: 3, end: 4 });
    state.move_cursor_to_next_grapheme(true);
    assert_eq!(state.selection(), Selection { start: 3, end: 4 });
    state.move_cursor_to_prev_grapheme(false);
    assert_eq!(state.selection(), Selection { start: 3, end: 3 });
    state.move_cursor_to_prev_grapheme(false);
    assert_eq!(state.selection(), Selection { start: 0, end: 0 });
    state.move_cursor_to_prev_grapheme(false);
    assert_eq!(state.selection(), Selection { start: 0, end: 0 });
}

#[test]
fn the_line_under_the_caret() {
    let text = "first\nsecond\n\nlast";
    let mut state = editor(text, 0, 8);
    state.select_line_under_cursor();
    assert_eq!(state.selection(), Selection { start: 6, end: 12 });
    let mut state = editor(text, 0, 0);
    state.select_line_under_cursor();
    assert_eq!(state.selection(), Selection { start: 0, end: 5 });
    let mut state = editor(text, 0, 5);
    state.select_line_under_cursor();
    assert_eq!(state.selection(), Selection { start: 0, end: 5 });
    let mut state = editor(text, 0, 13);
    state.select_line_under_cursor();
    assert_eq!(state.selection(), Selection { start: 13, end: 13 });
    let mut state = editor(text, 0, text.len());
    state.select_line_under_cursor();
    assert_eq!(state.selection(), Selection { start: 14, end: 18 });
}

#[test]
fn typing_replaces_the_selection() {
    let mut state = editor("hello world", 9, 6);
    state.insert("wé");
    assert_eq!(state.text(), "hello wéld");
    assert_eq!(state.selection(), Selection::empty(9));
    state.insert("");
    assert_eq!(state.text(), "hello wéld");
    let mut state = editor("", 0, 0);
    state.insert("x");
    assert_eq!(state.text(), "x");
    assert_eq!(state.selection(), Selection::empty(1));
}

#[test]
fn keys_move_the_caret_and_type() {
    let mut state = editor("ab cd", 0, 0);
    assert!(state.key_down(&Key::ArrowRight, false, false));
    assert_eq!(state.selection(), Selection::empty(1));
    assert!(state.key_down(&Key::ArrowRight, true, true));
    assert_eq!(state.selection(), Selection { start: 1, end: 2 });
    assert!(state.key_down(&Key::Character(String::from("Z")), false, false));
    assert_eq!(state.text(), "aZ cd");
    assert_eq!(state.selection(), Selection::empty(2));
    assert!(state.key_down(&Key::ArrowLeft, false, true));
    assert_eq!(state.selection(), Selection::empty(0));
    assert!(state.key_down(&Key::ArrowLeft, false, false));
    assert_eq!(state.selection(), Selection::empty(0));
    assert!(!state.key_down(&Key::Other, false, false));
    assert_eq!(state.text(), "aZ cd");
}

#[test]
fn set_selection_tells_of_changes() {
    let mut state = editor("abc", 1, 2);
    assert!(!state.set_selection(Selection { start: 1, end: 2 }));
    assert!(state.set_selection(Selection { start: 2, end: 1 }));
    assert_eq!(state.selection().min(), 1);
}

#[test]
fn scan_steps_by_character_class() {
    assert_eq!(scan_step(LeadingWhitespace, true, false), Some(LeadingWhitespace));
    assert_eq!(scan_step(LeadingWhitespace, false, true), Some(Alnum));
    assert_eq!(scan_step(LeadingWhitespace, false, false), Some(NotAlnum));
    assert_eq!(scan_step(Alnum, false, true), Some(Alnum));
    assert_eq!(scan_step(Alnum, true, false), None);
    assert_eq!(scan_step(Alnum, false, false), None);
    assert_eq!(scan_step(NotAlnum, false, true), None);
    assert_eq!(scan_step(NotAlnum, true, false), None);
}

#[test]
fn characters_take_one_to_four_bytes() {
    for (c, n) in [('a', 1), ('\u{7f}', 1), ('\u{80}', 2), ('é', 2), ('\u{7ff}', 2), ('\u{800}', 3),
        ('€', 3), ('\u{ffff}', 3), ('\u{10000}', 4), ('😀', 4), ('\u{10ffff}', 4)]
    {
        assert_eq!(len_utf8(c), n);
        assert_eq!(len_utf8(c), c.len_utf8());
    }
}
