use piece_table::editor::{Editor, Mode};
use piece_table::event::{Event, Key};

fn type_text(editor: &mut Editor, text: &str) {
    for c in text.chars() {
        if c == '\n' {
            assert!(editor.input(Event::KeyPressed(Key::Return)));
        } else {
            assert!(editor.input(Event::ReceivedCharacter(c)));
        }
    }
}

fn editor_with(text: &str) -> Editor {
    let mut editor = Editor::new();
    assert!(editor.input(Event::ReceivedCharacter('i')));
    type_text(&mut editor, text);
    assert!(editor.input(Event::KeyPressed(Key::Escape)));
    editor
}

fn command(editor: &mut Editor, keys: &str) {
    for c in keys.chars() {
        assert!(editor.input(Event::ReceivedCharacter(c)));
    }
}

#[test]
fn new_editor_is_empty_and_normal() {
    let editor = Editor::new();
    assert_eq!(editor.mode(), Mode::Normal);
    assert_eq!(editor.cursor_pos(), 0);
    assert!(!editor.unsaved());
    assert_eq!(editor.document().to_string(), "");
}

#[test]
fn typing_in_normal_mode_leaves_text_alone() {
    let mut editor = Editor::new();
    assert!(editor.input(Event::ReceivedCharacter('x')));
    assert!(editor.input(Event::KeyPressed(Key::Return)));
    assert_eq!(editor.document().to_string(), "");
    assert!(!editor.unsaved());
    assert_eq!(editor.mode(), Mode::Normal);
}

#[test]
fn typing_in_insert_mode_fills_text() {
    let mut editor = Editor::new();
    assert!(editor.input(Event::ReceivedCharacter('i')));
    assert_eq!(editor.mode(), Mode::Insert);
    type_text(&mut editor, "ab\ncd");
    assert_eq!(editor.document().to_string(), "ab\ncd");
    assert_eq!(editor.cursor_pos(), 5);
    assert!(editor.unsaved());
    assert!(editor.input(Event::KeyPressed(Key::Escape)));
    assert_eq!(editor.mode(), Mode::Normal);
}

#[test]
fn control_characters_are_not_typed() {
    let mut editor = Editor::new();
    assert!(editor.input(Event::ReceivedCharacter('i')));
    assert!(editor.input(Event::ReceivedCharacter('\r')));
    assert!(editor.input(Event::ReceivedCharacter('\u{1b}')));
    assert!(editor.input(Event::ReceivedCharacter('\u{7f}')));
    assert_eq!(editor.document().to_string(), "");
    assert_eq!(editor.cursor_pos(), 0);
    assert!(editor.input(Event::ReceivedCharacter('a')));
    assert_eq!(editor.document().to_string(), "a");
}

#[test]
fn step_takes_control_flag_as_given() {
    let mut editor = Editor::new();
    editor.step(Event::ReceivedCharacter('i'), false);
    assert_eq!(editor.mode(), Mode::Insert);
    editor.step(Event::ReceivedCharacter('a'), true);
    assert_eq!(editor.document().to_string(), "");
    editor.step(Event::ReceivedCharacter('a'), false);
    assert_eq!(editor.document().to_string(), "a");
    assert_eq!(editor.cursor_pos(), 1);
}

#[test]
fn delete_and_back_take_out_characters() {
    let mut editor = editor_with("abcd");
    command(&mut editor, "hhi");
    assert_eq!(editor.cursor_pos(), 2);
    assert!(editor.input(Event::KeyPressed(Key::Delete)));
    assert_eq!(editor.document().to_string(), "abd");
    assert_eq!(editor.cursor_pos(), 2);
    assert!(editor.input(Event::KeyPressed(Key::Back)));
    assert_eq!(editor.document().to_string(), "ad");
    assert_eq!(editor.cursor_pos(), 1);
    assert!(editor.input(Event::KeyPressed(Key::Back)));
    assert_eq!(editor.document().to_string(), "d");
    assert_eq!(editor.cursor_pos(), 0);
    assert!(editor.input(Event::KeyPressed(Key::Back)));
    assert_eq!(editor.document().to_string(), "d");
    assert_eq!(editor.cursor_pos(), 0);
}

#[test]
fn delete_at_end_does_nothing() {
    let mut editor = editor_with("ab");
    command(&mut editor, "i");
    assert!(editor.input(Event::KeyPressed(Key::Delete)));
    assert_eq!(editor.document().to_string(), "ab");
    assert_eq!(editor.cursor_pos(), 2);
}

#[test]
fn back_in_empty_text_only_moves_cursor() {
    let mut editor = Editor::new();
    command(&mut editor, "llli");
    assert_eq!(editor.cursor_pos(), 3);
    assert!(editor.input(Event::KeyPressed(Key::Back)));
    assert_eq!(editor.cursor_pos(), 2);
    assert!(editor.unsaved());
    assert_eq!(editor.document().to_string(), "");
}

#[test]
fn h_and_l_move_cursor_without_clamping_to_text() {
    let mut editor = editor_with("ab");
    assert_eq!(editor.cursor_pos(), 2);
    command(&mut editor, "l");
    assert_eq!(editor.cursor_pos(), 3);
    command(&mut editor, "hhhh");
    assert_eq!(editor.cursor_pos(), 0);
}

#[test]
fn typing_beyond_end_is_not_taken() {
    let mut editor = editor_with("ab");
    command(&mut editor, "li");
    assert_eq!(editor.cursor_pos(), 3);
    assert!(!editor.admitted(&Event::ReceivedCharacter('x'), false));
    assert!(!editor.input(Event::ReceivedCharacter('x')));
    assert!(!editor.input(Event::KeyPressed(Key::Return)));
    assert_eq!(editor.document().to_string(), "ab");
    assert_eq!(editor.cursor_pos(), 3);
    assert_eq!(editor.mode(), Mode::Insert);
    assert!(!editor.input(Event::KeyPressed(Key::Back)));
    assert_eq!(editor.document().to_string(), "ab");
    assert_eq!(editor.cursor_pos(), 3);
}

#[test]
fn back_at_end_takes_out_last_character() {
    let mut editor = editor_with("ab");
    command(&mut editor, "i");
    assert!(editor.input(Event::KeyPressed(Key::Back)));
    assert_eq!(editor.document().to_string(), "a");
    assert_eq!(editor.cursor_pos(), 1);
}

#[test]
fn back_far_beyond_end_is_not_taken() {
    let mut editor = editor_with("ab");
    command(&mut editor, "lli");
    assert_eq!(editor.cursor_pos(), 4);
    assert!(!editor.input(Event::KeyPressed(Key::Back)));
    assert_eq!(editor.document().to_string(), "ab");
    assert_eq!(editor.cursor_pos(), 4);
}

#[test]
fn j_moves_down_keeping_column() {
    let mut editor = editor_with("abcd\nefgh\nij");
    command(&mut editor, "hhhhhhhhhhhh");
    assert_eq!(editor.cursor_pos(), 0);
    command(&mut editor, "ll");
    assert_eq!(editor.cursor_pos(), 2);
    command(&mut editor, "j");
    assert_eq!(editor.cursor_pos(), 7);
    command(&mut editor, "j");
    assert_eq!(editor.cursor_pos(), 12);
    command(&mut editor, "j");
    assert_eq!(editor.cursor_pos(), 12);
}

#[test]
fn j_stops_at_end_of_shorter_line() {
    let mut editor = editor_with("abcd\ne\nxyz");
    command(&mut editor, "hhhhhhhhhhhh");
    command(&mut editor, "lll");
    assert_eq!(editor.cursor_pos(), 3);
    command(&mut editor, "j");
    assert_eq!(editor.cursor_pos(), 6);
}

#[test]
fn j_on_line_break_is_not_taken() {
    let mut editor = editor_with("ab\ncd\n");
    command(&mut editor, "hhhh");
    assert_eq!(editor.cursor_pos(), 2);
    assert!(!editor.admitted(&Event::ReceivedCharacter('j'), false));
    assert!(!editor.input(Event::ReceivedCharacter('j')));
    assert_eq!(editor.cursor_pos(), 2);
}

#[test]
fn k_moves_up() {
    let mut editor = editor_with("abcd\nefgh\nij");
    assert_eq!(editor.cursor_pos(), 12);
    command(&mut editor, "k");
    // line break at 9, the one before at 4: column 3 from offset 4
    assert_eq!(editor.cursor_pos(), 7);
    command(&mut editor, "k");
    // line break at 4, none before: column 3 from offset 0
    assert_eq!(editor.cursor_pos(), 3);
    command(&mut editor, "k");
    assert_eq!(editor.cursor_pos(), 3);
}

#[test]
fn other_events_change_nothing() {
    let mut editor = editor_with("ab");
    command(&mut editor, "i");
    assert!(editor.input(Event::Other));
    assert!(editor.input(Event::KeyPressed(Key::Other)));
    assert_eq!(editor.document().to_string(), "ab");
    assert_eq!(editor.cursor_pos(), 2);
    assert_eq!(editor.mode(), Mode::Insert);
}

#[test]
fn k_below_a_line_break_at_the_start_stays() {
    let mut editor = editor_with("\nab");
    assert_eq!(editor.cursor_pos(), 3);
    command(&mut editor, "k");
    assert_eq!(editor.cursor_pos(), 3);
    command(&mut editor, "h");
    command(&mut editor, "k");
    assert_eq!(editor.cursor_pos(), 2);
}

#[test]
fn k_goes_up_to_a_line_that_starts_the_text_with_a_break() {
    let mut editor = editor_with("\nab\ncd");
    assert_eq!(editor.cursor_pos(), 6);
    command(&mut editor, "hk");
    // line break at 3, the one before at 0: column 2 from offset 0
    assert_eq!(editor.cursor_pos(), 2);
}

#[test]
fn j_counts_the_column_from_a_line_break_at_the_start() {
    let mut editor = editor_with("\nab\ncdef");
    command(&mut editor, "hhhhhhhh");
    assert_eq!(editor.cursor_pos(), 0);
    assert!(!editor.input(Event::ReceivedCharacter('j')));
    command(&mut editor, "ll");
    assert_eq!(editor.cursor_pos(), 2);
    command(&mut editor, "j");
    // line starts at 1, column 1; next line starts at 4
    assert_eq!(editor.cursor_pos(), 5);
}
