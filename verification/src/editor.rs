//! A modal editor over a document: what a key press or a typed character
//! does to the text, the cursor and the mode.

use crate::document::Document;
use crate::event::{typed_control, types_control, Event, Key};
use crate::lines::{next_break, prev_break};
use crate::pieces::{blanks, lemma_piece_count};
use crate::weights::total;
use vstd::prelude::*;

verus! {

/// Whether keys move the cursor or edit the text.
#[derive(Copy, Clone, Debug, PartialEq, Eq, Structural)]
pub enum Mode {
    /// Characters are commands.
    Normal,
    /// Characters go into the text.
    Insert,
}

/// An editing session: a document, a cursor into it and a mode.
pub struct Editor {
    document: Document,
    view_line: usize,
    cursor_pos: usize,
    mode: Mode,
    unsaved: bool,
}

/// What an editing session shows.
pub ghost struct EditorState {
    /// The text of the document.
    pub text: Seq<char>,
    /// The first line on display.
    pub view_line: usize,
    /// The offset of the cursor. It may lie beyond the end of the text.
    pub cursor: usize,
    /// The mode.
    pub mode: Mode,
    /// Whether the text has been edited.
    pub unsaved: bool,
}

impl EditorState {
    /// Whether a character can go into the text at the cursor: the cursor
    /// must not lie beyond the end of the text, and the text must leave
    /// room for the character.
    pub open spec fn can_type(self) -> bool {
        self.cursor <= self.text.len() && self.text.len() + 1 < usize::MAX
    }

    /// The state after `c` has gone into the text at the cursor.
    pub open spec fn typed(self, c: char) -> EditorState {
        EditorState {
            text: self.text.insert(self.cursor as int, c),
            cursor: (self.cursor + 1) as usize,
            unsaved: true,
            ..self
        }
    }

    /// The state after the character at the cursor has left the text, if
    /// there is one.
    pub open spec fn deleted(self) -> EditorState {
        if self.cursor < self.text.len() {
            EditorState { text: self.text.remove(self.cursor as int), unsaved: true, ..self }
        } else {
            self
        }
    }

    /// Whether the character before the cursor can leave the text: the
    /// cursor must not lie beyond the end of a text that has characters.
    pub open spec fn can_erase(self) -> bool {
        self.cursor > 0 && self.text.len() > 0 ==> self.cursor - 1 < self.text.len()
    }

    /// The state after the character before the cursor has left the text
    /// and the cursor has moved back by one. At offset zero nothing
    /// happens; in an empty text only the cursor moves.
    pub open spec fn erased(self) -> EditorState {
        if self.cursor > 0 {
            EditorState {
                text: if self.text.len() > 0 {
                    self.text.remove(self.cursor - 1)
                } else {
                    self.text
                },
                cursor: (self.cursor - 1) as usize,
                unsaved: true,
                ..self
            }
        } else {
            self
        }
    }

    /// The offset at which the line of the cursor starts, as moving down
    /// takes it: one past the last line break at or before the cursor.
    pub open spec fn line_start(self) -> int {
        match prev_break(self.text, self.cursor as int) {
            Some(x) => x + 1,
            None => 0,
        }
    }

    /// Whether the cursor can move down a line: where there is a line
    /// below, the cursor must not stand before the start of its own line,
    /// as it does on a line break.
    pub open spec fn can_go_down(self) -> bool {
        next_break(self.text, self.cursor as int) is Some ==> self.line_start() <= self.cursor
    }

    /// The state after the cursor has moved down a line, keeping its
    /// distance from the start of the line as far as the next line reaches.
    /// Without a line break at or after the cursor nothing happens.
    pub open spec fn gone_down(self) -> EditorState {
        match next_break(self.text, self.cursor as int) {
            Some(next_line) => {
                let pos_in_line = self.cursor - self.line_start();
                let eol = match next_break(self.text, next_line + 1) {
                    Some(e) => e as int,
                    None => self.text.len() as int,
                };
                let target = next_line + 1 + pos_in_line;
                EditorState {
                    cursor: (if target < eol {
                        target
                    } else {
                        eol
                    }) as usize,
                    ..self
                }
            },
            None => self,
        }
    }

    /// The state after the cursor has moved up a line. Without a line break
    /// at or before the cursor, or with that line break at the very start
    /// of the text, there is no line above and nothing happens.
    pub open spec fn gone_up(self) -> EditorState {
        match prev_break(self.text, self.cursor as int) {
            Some(same_line) => if same_line > 0 {
                let prev_line = match prev_break(self.text, same_line - 1) {
                    Some(p) => p as int,
                    None => 0,
                };
                let target = prev_line + (self.cursor - same_line);
                EditorState {
                    cursor: (if target < same_line {
                        target
                    } else {
                        same_line as int
                    }) as usize,
                    ..self
                }
            } else {
                self
            },
            None => self,
        }
    }

    /// The state after the command character `c` in normal mode.
    pub open spec fn commanded(self, c: char) -> EditorState {
        if c == 'i' {
            EditorState { mode: Mode::Insert, ..self }
        } else if c == 'h' {
            EditorState {
                cursor: if self.cursor > 0 {
                    (self.cursor - 1) as usize
                } else {
                    0
                },
                ..self
            }
        } else if c == 'j' {
            self.gone_down()
        } else if c == 'k' {
            self.gone_up()
        } else if c == 'l' {
            EditorState {
                cursor: if self.cursor < usize::MAX {
                    (self.cursor + 1) as usize
                } else {
                    usize::MAX
                },
                ..self
            }
        } else {
            self
        }
    }

    /// Whether the editor can take `event` in this state, where `control`
    /// tells whether a typed character is a control character.
    pub open spec fn admits(self, event: Event, control: bool) -> bool {
        match event {
            Event::KeyPressed(key) => self.mode == Mode::Insert ==> match key {
                Key::Return => self.can_type(),
                Key::Back => self.can_erase(),
                _ => true,
            },
            Event::ReceivedCharacter(c) => !control ==> match self.mode {
                Mode::Insert => self.can_type(),
                Mode::Normal => c == 'j' ==> self.can_go_down(),
            },
            Event::Other => true,
        }
    }

    /// The state after `event`, where `control` tells whether a typed
    /// character is a control character.
    ///
    /// In insert mode Escape leads to normal mode, Return puts a line break
    /// at the cursor, Delete takes out the character at the cursor and Back
    /// the one before it, and a typed character goes into the text at the
    /// cursor. In normal mode keys do nothing and typed characters are
    /// commands. Control characters are never typed.
    pub open spec fn stepped(self, event: Event, control: bool) -> EditorState {
        match event {
            Event::KeyPressed(key) => match self.mode {
                Mode::Insert => match key {
                    Key::Escape => EditorState { mode: Mode::Normal, ..self },
                    Key::Return => self.typed('\n'),
                    Key::Delete => self.deleted(),
                    Key::Back => self.erased(),
                    _ => self,
                },
                Mode::Normal => self,
            },
            Event::ReceivedCharacter(c) => if control {
                self
            } else {
                match self.mode {
                    Mode::Insert => self.typed(c),
                    Mode::Normal => self.commanded(c),
                }
            },
            Event::Other => self,
        }
    }
}

impl View for Editor {
    type V = EditorState;

    closed spec fn view(&self) -> EditorState {
        EditorState {
            text: self.document@,
            view_line: self.view_line,
            cursor: self.cursor_pos,
            mode: self.mode,
            unsaved: self.unsaved,
        }
    }
}

impl Editor {
    /// The document of the session is well-formed, none of its pieces is
    /// empty, and its text is shorter than a machine word counts.
    pub closed spec fn wf(&self) -> bool {
        &&& self.document.wf()
        &&& total(blanks(self.document.pieces())) == 0
        &&& self.document@.len() < usize::MAX
    }

    /// The document of a session has no more pieces than characters.
    proof fn lemma_room(&self)
        requires
            self.wf(),
        ensures
            self.document.pieces().len() <= self.document@.len(),
    {
        self.document.lemma_index_consistent();
        lemma_piece_count(self.document.pieces(), 0, self.document.pieces().len() as int);
    }

    /// A session on an empty document, in normal mode, with the cursor at
    /// offset zero.
    pub fn new() -> (editor: Self)
        ensures
            editor.wf(),
            editor@ == (EditorState {
                text: Seq::empty(),
                view_line: 0,
                cursor: 0,
                mode: Mode::Normal,
                unsaved: false,
            }),
    {
        let editor = Editor {
            document: Document::empty(),
            view_line: 0,
            cursor_pos: 0,
            mode: Mode::Normal,
            unsaved: false,
        };
        proof {
            assert(blanks(editor.document.pieces()) =~= Seq::<nat>::empty());
        }
        editor
    }

    /// The document.
    pub fn document(&self) -> (doc: &Document)
        requires
            self.wf(),
        ensures
            doc.wf(),
            doc@ == self@.text,
    {
        &self.document
    }

    /// The offset of the cursor.
    pub fn cursor_pos(&self) -> (pos: usize)
        ensures
            pos == self@.cursor,
    {
        self.cursor_pos
    }

    /// The mode.
    pub fn mode(&self) -> (mode: Mode)
        ensures
            mode == self@.mode,
    {
        self.mode
    }

    /// Whether the text has been edited.
    pub fn unsaved(&self) -> (unsaved: bool)
        ensures
            unsaved == self@.unsaved,
    {
        self.unsaved
    }

    /// Puts `c` into the text at the cursor and moves the cursor past it.
    fn type_char(&mut self, c: char)
        requires
            old(self).wf(),
            old(self)@.can_type(),
        ensures
            final(self).wf(),
            final(self)@ == old(self)@.typed(c),
    {
        proof {
            self.lemma_room();
        }
        self.document.insert(self.cursor_pos, c);
        self.cursor_pos += 1;
        self.unsaved = true;
    }

    /// Moves the cursor down a line.
    fn go_down(&mut self)
        requires
            old(self).wf(),
            old(self)@.can_go_down(),
        ensures
            final(self).wf(),
            final(self)@ == old(self)@.gone_down(),
    {
        if let Some(next_line) = self.document.next_linebreak(self.cursor_pos) {
            let same_line = match self.document.prev_linebreak(self.cursor_pos) {
                Some(x) => x + 1,
                None => 0,
            };
            let pos_in_line = self.cursor_pos - same_line;
            let len = self.document.len();
            let eol = match self.document.next_linebreak(next_line + 1) {
                Some(e) => e,
                None => len,
            };
            let room = eol - (next_line + 1);
            self.cursor_pos = if pos_in_line < room {
                next_line + 1 + pos_in_line
            } else {
                eol
            };
        }
    }

    /// Moves the cursor up a line.
    fn go_up(&mut self)
        requires
            old(self).wf(),
        ensures
            final(self).wf(),
            final(self)@ == old(self)@.gone_up(),
    {
        if let Some(same_line) = self.document.prev_linebreak(self.cursor_pos) {
            if same_line > 0 {
                let prev_line = match self.document.prev_linebreak(same_line - 1) {
                    Some(p) => p,
                    None => 0,
                };
                let pos_in_line = self.cursor_pos - same_line;
                self.cursor_pos = if pos_in_line < same_line - prev_line {
                    prev_line + pos_in_line
                } else {
                    same_line
                };
            }
        }
    }

    /// Whether the editor can take `event`, where `control` tells whether a
    /// typed character is a control character.
    pub fn admitted(&self, event: &Event, control: bool) -> (ok: bool)
        requires
            self.wf(),
        ensures
            ok == self@.admits(*event, control),
    {
        let len = self.document.len();
        let can_type = self.cursor_pos <= len && len < usize::MAX - 1;
        match event {
            Event::KeyPressed(key) => match self.mode {
                Mode::Insert => match key {
                    Key::Return => can_type,
                    Key::Back => !(self.cursor_pos > 0 && len > 0) || self.cursor_pos - 1 < len,
                    _ => true,
                },
                Mode::Normal => true,
            },
            Event::ReceivedCharacter(c) => if control {
                true
            } else {
                match self.mode {
                    Mode::Insert => can_type,
                    Mode::Normal => if *c == 'j' {
                        match self.document.next_linebreak(self.cursor_pos) {
                            Some(_) => match self.document.prev_linebreak(self.cursor_pos) {
                                Some(x) => x < self.cursor_pos,
                                None => true,
                            },
                            None => true,
                        }
                    } else {
                        true
                    },
                }
            },
            Event::Other => true,
        }
    }

    /// Takes `event`, where `control` tells whether a typed character is a
    /// control character.
    pub fn step(&mut self, event: Event, control: bool)
        requires
            old(self).wf(),
            old(self)@.admits(event, control),
        ensures
            final(self).wf(),
            final(self)@ == old(self)@.stepped(event, control),
    {
        match event {
            Event::KeyPressed(key) => match self.mode {
                Mode::Insert => match key {
                    Key::Escape => {
                        self.mode = Mode::Normal;
                    },
                    Key::Return => {
                        self.type_char('\n');
                    },
                    Key::Delete => {
                        if self.cursor_pos < self.document.len() {
                            proof {
                                self.lemma_room();
                            }
                            self.document.remove(self.cursor_pos);
                            self.unsaved = true;
                        }
                    },
                    Key::Back => {
                        if self.cursor_pos > 0 {
                            if self.document.len() > 0 {
                                proof {
                                    self.lemma_room();
                                }
                                self.document.remove(self.cursor_pos - 1);
                            }
                            self.cursor_pos -= 1;
                            self.unsaved = true;
                        }
                    },
                    _ => {},
                },
                Mode::Normal => {},
            },
            Event::ReceivedCharacter(chr) => if !control {
                match self.mode {
                    Mode::Insert => {
                        self.type_char(chr);
                    },
                    Mode::Normal => {
                        if chr == 'i' {
                            self.mode = Mode::Insert;
                        } else if chr == 'h' {
                            self.cursor_pos = self.cursor_pos.saturating_sub(1);
                        } else if chr == 'j' {
                            self.go_down();
                        } else if chr == 'k' {
                            self.go_up();
                        } else if chr == 'l' {
                            self.cursor_pos = self.cursor_pos.saturating_add(1);
                        }
                    },
                }
            },
            Event::Other => {},
        }
    }

    /// Takes `event` if the editor can take it, and tells whether it did.
    /// An event that it cannot take leaves the session as it was.
    pub fn input(&mut self, event: Event) -> (done: bool)
        requires
            old(self).wf(),
        ensures
            final(self).wf(),
            done == old(self)@.admits(event, types_control(event)),
            done ==> final(self)@ == old(self)@.stepped(event, types_control(event)),
            !done ==> final(self)@ == old(self)@,
    {
        let control = typed_control(&event);
        if self.admitted(&event, control) {
            self.step(event, control);
            true
        } else {
            false
        }
    }
}

} // verus!
