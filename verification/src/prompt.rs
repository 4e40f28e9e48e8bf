//! A one-line prompt: a label, and behind it an entry that the user edits.

use crate::chars::{chars_of, string_of};
use crate::event::{typed_control, types_control, Event, Key};
use vstd::prelude::*;

verus! {

/// A prompt under edit.
pub struct Prompt {
    buffer: Vec<char>,
    output_start: usize,
    cursor: usize,
    first_input: bool,
}

/// What a prompt shows.
pub ghost struct PromptState {
    /// The label, followed by the entry.
    pub text: Seq<char>,
    /// Where the entry starts in `text`.
    pub start: usize,
    /// The offset of the cursor in the entry.
    pub cursor: usize,
    /// Whether the entry is still the default that the prompt came with.
    pub first_input: bool,
}

impl PromptState {
    /// The entry starts inside the text, and the cursor lies in the entry
    /// or at its end.
    pub open spec fn wf(self) -> bool {
        &&& self.start <= self.text.len()
        &&& self.cursor <= self.text.len() - self.start
    }

    /// The entry.
    pub open spec fn entry(self) -> Seq<char> {
        self.text.skip(self.start as int)
    }

    /// The state as an edit finds it: the first edit does away with the
    /// default entry.
    pub open spec fn cleared(self) -> PromptState {
        if self.first_input {
            PromptState {
                text: self.text.take(self.start as int),
                cursor: 0,
                first_input: false,
                ..self
            }
        } else {
            self
        }
    }

    /// The state after the cursor has moved one to the left, if it can.
    pub open spec fn gone_left(self) -> PromptState {
        PromptState {
            cursor: if self.cursor > 0 {
                (self.cursor - 1) as usize
            } else {
                self.cursor
            },
            first_input: false,
            ..self
        }
    }

    /// The state after the cursor has moved one to the right, if it can.
    pub open spec fn gone_right(self) -> PromptState {
        PromptState {
            cursor: if self.cursor < self.text.len() - self.start {
                (self.cursor + 1) as usize
            } else {
                self.cursor
            },
            first_input: false,
            ..self
        }
    }

    /// The state after a character has left the entry: the one before the
    /// cursor if `back` is set, which takes the cursor with it, and the one
    /// at the cursor otherwise. Where there is no such character only the
    /// default entry goes.
    pub open spec fn erased(self, back: bool) -> PromptState {
        let s = self.cleared();
        let del_at = if back {
            s.cursor as int
        } else {
            s.cursor + 1
        };
        if 0 < del_at <= s.text.len() - s.start {
            PromptState {
                text: s.text.remove(s.start + del_at - 1),
                cursor: if back {
                    (s.cursor - 1) as usize
                } else {
                    s.cursor
                },
                ..s
            }
        } else {
            s
        }
    }

    /// The state after `c` has gone into the entry at the cursor.
    pub open spec fn typed(self, c: char) -> PromptState {
        let s = self.cleared();
        PromptState {
            text: s.text.insert(s.start + s.cursor, c),
            cursor: (s.cursor + 1) as usize,
            ..s
        }
    }

    /// The state after `event`, where `control` tells whether a typed
    /// character is a control character.
    pub open spec fn stepped(self, event: Event, control: bool) -> PromptState {
        match event {
            Event::KeyPressed(key) => match key {
                Key::Left => self.gone_left(),
                Key::Right => self.gone_right(),
                Key::Back => self.erased(true),
                Key::Delete => self.erased(false),
                _ => self,
            },
            Event::ReceivedCharacter(c) => if control {
                self
            } else {
                self.typed(c)
            },
            Event::Other => self,
        }
    }
}

/// Whether `event` is one that a prompt without a moving cursor knows: a
/// typed character, or the Return key.
pub open spec fn is_plain(event: Event) -> bool {
    event is ReceivedCharacter || event == Event::KeyPressed(Key::Return)
}

/// Whether `event` ends the prompt: the Return key does.
pub open spec fn finishes(event: Event) -> bool {
    event == Event::KeyPressed(Key::Return)
}

impl View for Prompt {
    type V = PromptState;

    closed spec fn view(&self) -> PromptState {
        PromptState {
            text: self.buffer@,
            start: self.output_start,
            cursor: self.cursor,
            first_input: self.first_input,
        }
    }
}

impl Prompt {
    /// A prompt with the label `prompt`, which a `"> "` follows, and the
    /// entry `default`. The cursor stands at the end of the entry.
    pub fn new(prompt: &str, default: &str) -> (p: Prompt)
        ensures
            p@.wf(),
            p@.text == prompt@ + seq!['>', ' '] + default@,
            p@.start == prompt@.len() + 2,
            p@.cursor == default@.len(),
            p@.first_input,
            p@.entry() == default@,
    {
        let mut buffer = chars_of(prompt);
        buffer.push('>');
        buffer.push(' ');
        let output_start = buffer.len();
        let mut entry = chars_of(default);
        let cursor = entry.len();
        buffer.append(&mut entry);
        proof {
            assert(buffer@ =~= prompt@ + seq!['>', ' '] + default@);
            assert(buffer@.skip(output_start as int) =~= default@);
        }
        assert(buffer.len() == output_start + cursor);
        Prompt { buffer, output_start, cursor, first_input: true }
    }

    /// The offset of the cursor in the entry.
    pub fn cursor(&self) -> (pos: usize)
        ensures
            pos == self@.cursor,
    {
        self.cursor
    }

    /// The label and the entry, as shown.
    pub fn line(&self) -> (text: String)
        ensures
            text@ == self@.text,
    {
        let text = string_of(&self.buffer, 0, self.buffer.len());
        assert(self.buffer@.subrange(0, self.buffer@.len() as int) =~= self.buffer@);
        text
    }

    /// The label and the entry up to the cursor.
    pub fn before_cursor(&self) -> (text: String)
        requires
            self@.wf(),
        ensures
            text@ == self@.text.take(self@.start + self@.cursor),
    {
        assert(self.buffer.len() == self.buffer@.len());
        string_of(&self.buffer, 0, self.output_start + self.cursor)
    }

    /// The entry.
    pub fn output(&self) -> (text: String)
        requires
            self@.wf(),
        ensures
            text@ == self@.entry(),
    {
        string_of(&self.buffer, self.output_start, self.buffer.len())
    }

    /// Does away with the default entry, if it is still there.
    fn clear(&mut self)
        requires
            old(self)@.wf(),
        ensures
            final(self)@.wf(),
            final(self)@ == old(self)@.cleared(),
    {
        if self.first_input {
            self.first_input = false;
            self.buffer.truncate(self.output_start);
            self.cursor = 0;
        }
    }

    /// Takes `event`, where `control` tells whether a typed character is a
    /// control character, and tells whether the prompt is finished.
    pub fn step(&mut self, event: Event, control: bool) -> (finished: bool)
        requires
            old(self)@.wf(),
        ensures
            final(self)@.wf(),
            final(self)@ == old(self)@.stepped(event, control),
            finished == finishes(event),
    {
        match event {
            Event::KeyPressed(key) => match key {
                Key::Left => {
                    self.first_input = false;
                    if self.cursor > 0 {
                        self.cursor -= 1;
                    }
                    false
                },
                Key::Right => {
                    self.first_input = false;
                    if self.cursor < self.buffer.len() - self.output_start {
                        self.cursor += 1;
                    }
                    false
                },
                Key::Return => true,
                Key::Back => {
                    self.clear();
                    assert(self.buffer.len() == self.buffer@.len());
                    if self.cursor > 0 {
                        self.buffer.remove(self.output_start + self.cursor - 1);
                        self.cursor -= 1;
                    }
                    false
                },
                Key::Delete => {
                    self.clear();
                    if self.cursor < self.buffer.len() - self.output_start {
                        self.buffer.remove(self.output_start + self.cursor);
                    }
                    false
                },
                _ => false,
            },
            Event::ReceivedCharacter(chr) => {
                if !control {
                    self.clear();
                    assert(self.buffer.len() == self.buffer@.len());
                    self.buffer.insert(self.output_start + self.cursor, chr);
                    assert(self.buffer.len() == self.buffer@.len());
                    self.cursor += 1;
                }
                false
            },
            Event::Other => false,
        }
    }

    /// Takes `event` and tells whether the prompt is finished.
    pub fn input(&mut self, event: Event) -> (finished: bool)
        requires
            old(self)@.wf(),
        ensures
            final(self)@.wf(),
            final(self)@ == old(self)@.stepped(event, types_control(event)),
            finished == finishes(event),
    {
        let control = typed_control(&event);
        self.step(event, control)
    }

    /// Takes `event` as a prompt without a moving cursor does, which knows
    /// typed characters and the Return key and nothing else, and tells
    /// whether the prompt is finished.
    pub fn input_plain(&mut self, event: Event) -> (finished: bool)
        requires
            old(self)@.wf(),
        ensures
            final(self)@.wf(),
            final(self)@ == (if is_plain(event) {
                old(self)@.stepped(event, types_control(event))
            } else {
                old(self)@
            }),
            finished == finishes(event),
    {
        match event {
            Event::ReceivedCharacter(_) => self.input(event),
            Event::KeyPressed(Key::Return) => self.input(event),
            _ => false,
        }
    }
}

} // verus!
