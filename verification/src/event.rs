//! What a window reports: keys that went down and characters that were
//! typed.

use vstd::prelude::*;

verus! {

/// Whether `c` is a control character: one of the general category of
/// control codes, which are U+0000 to U+001F and U+007F to U+009F.
pub open spec fn is_control(c: char) -> bool {
    (c as u32) <= 0x1f || (0x7f <= (c as u32) && (c as u32) <= 0x9f)
}

/// `char::is_control` of the standard library tells whether a character
/// belongs to the general category of control codes.
#[verifier::external_body]
pub(crate) fn char_is_control(c: char) -> (control: bool)
    ensures
        control == is_control(c),
{
    c.is_control()
}

/// The keys that are told apart.
#[derive(Copy, Clone, Debug, PartialEq, Eq, Structural)]
pub enum Key {
    Escape,
    Return,
    Delete,
    Back,
    Left,
    Right,
    /// Any other key.
    Other,
}

/// What the window reports.
#[derive(Copy, Clone, Debug, PartialEq, Eq, Structural)]
pub enum Event {
    /// A key went down.
    KeyPressed(Key),
    /// A character was typed.
    ReceivedCharacter(char),
    /// Anything else.
    Other,
}

/// Whether `event` is a typed control character.
pub open spec fn types_control(event: Event) -> bool {
    match event {
        Event::ReceivedCharacter(c) => is_control(c),
        _ => false,
    }
}

/// Whether `event` is a typed control character.
pub fn typed_control(event: &Event) -> (control: bool)
    ensures
        control == types_control(*event),
{
    match event {
        Event::ReceivedCharacter(c) => char_is_control(*c),
        _ => false,
    }
}

} // verus!
