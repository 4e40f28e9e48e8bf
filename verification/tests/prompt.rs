use piece_table::event::{typed_control, Event, Key};
use piece_table::prompt::Prompt;

fn press(prompt: &mut Prompt, keys: &[Key]) {
    for key in keys {
        assert!(!prompt.input(Event::KeyPressed(*key)));
    }
}

fn type_text(prompt: &mut Prompt, text: &str) {
    for c in text.chars() {
        assert!(!prompt.input(Event::ReceivedCharacter(c)));
    }
}

#[test]
fn new_prompt_shows_label_and_default() {
    let prompt = Prompt::new("Enter your name", "kjell");
    assert_eq!(prompt.line(), "Enter your name> kjell");
    assert_eq!(prompt.output(), "kjell");
    assert_eq!(prompt.cursor(), 5);
    assert_eq!(prompt.before_cursor(), "Enter your name> kjell");
}

#[test]
fn return_finishes_and_keeps_entry() {
    let mut prompt = Prompt::new("Name", "kjell");
    assert!(prompt.input(Event::KeyPressed(Key::Return)));
    assert_eq!(prompt.output(), "kjell");
}

#[test]
fn first_typed_character_replaces_default() {
    let mut prompt = Prompt::new("Name", "kjell");
    type_text(&mut prompt, "a");
    assert_eq!(prompt.output(), "a");
    assert_eq!(prompt.cursor(), 1);
    type_text(&mut prompt, "bc");
    assert_eq!(prompt.output(), "abc");
    assert_eq!(prompt.line(), "Name> abc");
}

#[test]
fn moving_first_keeps_default() {
    let mut prompt = Prompt::new("Name", "kjell");
    press(&mut prompt, &[Key::Left, Key::Left]);
    assert_eq!(prompt.cursor(), 3);
    assert_eq!(prompt.before_cursor(), "Name> kje");
    type_text(&mut prompt, "X");
    assert_eq!(prompt.output(), "kjeXll");
    assert_eq!(prompt.cursor(), 4);
}

#[test]
fn cursor_stays_inside_entry() {
    let mut prompt = Prompt::new("Name", "ab");
    press(&mut prompt, &[Key::Right]);
    assert_eq!(prompt.cursor(), 2);
    press(&mut prompt, &[Key::Left, Key::Left, Key::Left]);
    assert_eq!(prompt.cursor(), 0);
    press(&mut prompt, &[Key::Right]);
    assert_eq!(prompt.cursor(), 1);
}

#[test]
fn first_back_or_delete_clears_default() {
    let mut prompt = Prompt::new("Name", "kjell");
    press(&mut prompt, &[Key::Back]);
    assert_eq!(prompt.output(), "");
    assert_eq!(prompt.cursor(), 0);
    assert_eq!(prompt.line(), "Name> ");
    let mut other = Prompt::new("Name", "kjell");
    press(&mut other, &[Key::Delete]);
    assert_eq!(other.output(), "");
    assert_eq!(other.cursor(), 0);
}

#[test]
fn back_and_delete_take_out_characters() {
    let mut prompt = Prompt::new("Name", "kjell");
    press(&mut prompt, &[Key::Left, Key::Left, Key::Back]);
    assert_eq!(prompt.output(), "kjll");
    assert_eq!(prompt.cursor(), 2);
    press(&mut prompt, &[Key::Delete]);
    assert_eq!(prompt.output(), "kjl");
    assert_eq!(prompt.cursor(), 2);
    press(&mut prompt, &[Key::Right, Key::Delete]);
    assert_eq!(prompt.output(), "kjl");
    press(&mut prompt, &[Key::Left, Key::Left, Key::Left, Key::Back]);
    assert_eq!(prompt.output(), "kjl");
    assert_eq!(prompt.cursor(), 0);
}

#[test]
fn control_characters_and_other_keys_change_nothing() {
    let mut prompt = Prompt::new("Name", "ab");
    type_text(&mut prompt, "\r\u{8}");
    press(&mut prompt, &[Key::Escape, Key::Other]);
    assert!(!prompt.input(Event::Other));
    assert_eq!(prompt.output(), "ab");
    assert_eq!(prompt.cursor(), 2);
    assert!(!prompt.step(Event::ReceivedCharacter('x'), true));
    assert_eq!(prompt.output(), "ab");
    assert!(!prompt.step(Event::ReceivedCharacter('x'), false));
    assert_eq!(prompt.output(), "x");
}

#[test]
fn empty_default_types_at_end() {
    let mut prompt = Prompt::new("Enter your name", "");
    assert_eq!(prompt.line(), "Enter your name> ");
    type_text(&mut prompt, "örn");
    assert_eq!(prompt.output(), "örn");
    assert_eq!(prompt.cursor(), 3);
    assert!(prompt.input(Event::KeyPressed(Key::Return)));
}

#[test]
fn plain_input_knows_characters_and_return_only() {
    let mut prompt = Prompt::new("Enter your name", "");
    assert!(!prompt.input_plain(Event::ReceivedCharacter('a')));
    assert!(!prompt.input_plain(Event::ReceivedCharacter('b')));
    assert!(!prompt.input_plain(Event::KeyPressed(Key::Back)));
    assert!(!prompt.input_plain(Event::KeyPressed(Key::Left)));
    assert!(!prompt.input_plain(Event::KeyPressed(Key::Delete)));
    assert!(!prompt.input_plain(Event::Other));
    assert!(!prompt.input_plain(Event::ReceivedCharacter('\u{8}')));
    assert_eq!(prompt.output(), "ab");
    assert_eq!(prompt.cursor(), 2);
    assert!(prompt.input_plain(Event::KeyPressed(Key::Return)));
    assert_eq!(prompt.output(), "ab");
}

#[test]
fn control_characters_are_the_two_low_ranges() {
    for c in ['\u{0}', '\u{8}', '\n', '\r', '\u{1b}', '\u{1f}', '\u{7f}', '\u{80}', '\u{9f}'] {
        assert!(typed_control(&Event::ReceivedCharacter(c)));
    }
    for c in [' ', 'a', '~', '\u{a0}', 'ö', '\u{2038}'] {
        assert!(!typed_control(&Event::ReceivedCharacter(c)));
    }
    assert!(!typed_control(&Event::KeyPressed(Key::Return)));
    assert!(!typed_control(&Event::Other));
}
