use vstd::prelude::*;

use crate::cursor::{Cursor, CursorState};
use crate::direction::HDirection;
use crate::editor::{
    byte_len, chars_of, cursor_fits, delete_text, deleted_cursor, deleted_text, edit_start,
    forward_target, insert_text, inserted_text, move_ok, move_over, moved, width_of, Motion,
    TextBuf,
};

verus! {

/// How far a cursor move on the command line jumps: to the next word, to
/// the end, or by single characters.
#[derive(Clone, Copy, PartialEq, Eq, Debug, Structural)]
pub enum CursorJump {
    Word,
    Boundary,
    Single,
}

impl Default for CursorJump {
    fn default() -> (r: Self)
        ensures
            r == CursorJump::Single,
    {
        CursorJump::Single
    }
}

/// A cursor move: how many characters a single step covers, whether it
/// extends a selection, and how far it jumps.
#[derive(Clone, Copy, PartialEq, Eq, Debug, Structural)]
pub struct CursorMovement {
    delta: usize,
    select: bool,
    jump: CursorJump,
}

impl CursorMovement {
    /// The number of characters a single step covers.
    pub closed spec fn spec_delta(&self) -> usize {
        self.delta
    }

    /// Whether the move extends a selection.
    pub closed spec fn spec_select(&self) -> bool {
        self.select
    }

    /// How far the move jumps.
    pub closed spec fn spec_jump(&self) -> CursorJump {
        self.jump
    }

    /// A move by one character, or by the given jump.
    pub fn new(range_selection: bool, jump: CursorJump) -> (r: Self)
        ensures
            r.spec_delta() == 1,
            r.spec_select() == range_selection,
            r.spec_jump() == jump,
    {
        CursorMovement { delta: 1, select: range_selection, jump }
    }

    /// The distance the move covers.
    pub open spec fn motion(&self) -> Motion {
        match self.spec_jump() {
            CursorJump::Word => Motion::Word,
            CursorJump::Boundary => Motion::Boundary,
            CursorJump::Single => Motion::Chars(self.spec_delta()),
        }
    }

    fn motion_of(&self) -> (r: Motion)
        ensures
            r == self.motion(),
    {
        match self.jump {
            CursorJump::Word => Motion::Word,
            CursorJump::Boundary => Motion::Boundary,
            CursorJump::Single => Motion::Chars(self.delta),
        }
    }
}

/// The command line: a line of text with a cursor.
pub struct CommandApp {
    buf: TextBuf,
    cursor: CursorState,
}

impl CommandApp {
    /// The text.
    pub closed spec fn text(&self) -> Seq<char> {
        self.buf@
    }

    /// The cursor.
    pub closed spec fn cursor_state(&self) -> Cursor {
        self.cursor.state
    }

    /// The text is well formed.
    pub closed spec fn wf(&self) -> bool {
        self.buf.wf()
    }

    /// An empty line with the cursor at its start.
    pub fn new() -> (r: Self)
        ensures
            r.wf(),
            r.text() == Seq::<char>::empty(),
            r.cursor_state() == Cursor::Singleton(0),
    {
        CommandApp { buf: TextBuf::new(), cursor: CursorState::new() }
    }

    /// The text.
    pub fn buf(&self) -> (r: &str)
        requires
            self.wf(),
        ensures
            r@ == self.text(),
    {
        self.buf.as_str()
    }

    /// The cursor.
    pub fn cursor(&self) -> (r: &Cursor)
        ensures
            *r == self.cursor_state(),
    {
        &self.cursor.state
    }

    /// Moves the cursor left or right; the text is unchanged.
    pub fn move_cursor(&mut self, direction: HDirection, movement: CursorMovement)
        requires
            old(self).wf(),
            move_ok(
                old(self).text(),
                old(self).cursor_state(),
                direction == HDirection::Left,
                movement.spec_select(),
                movement.motion(),
            ),
        ensures
            final(self).wf(),
            final(self).text() == old(self).text(),
            final(self).cursor_state() == moved(
                old(self).text(),
                old(self).cursor_state(),
                direction == HDirection::Left,
                movement.spec_select(),
                movement.motion(),
            ),
    {
        let m = movement.motion_of();
        let back = match direction {
            HDirection::Left => true,
            HDirection::Right => false,
        };
        move_over(&self.buf, &mut self.cursor, back, movement.select, m);
    }

    /// Types `input` at the cursor, replacing a selection; the cursor moves
    /// forward from the start of the edit by as many characters as `input`
    /// has bytes.
    pub fn enter_str(&mut self, input: &str)
        requires
            old(self).wf(),
            cursor_fits(old(self).text(), old(self).cursor_state()),
            byte_len(old(self).text()) + byte_len(input@) < usize::MAX,
        ensures
            final(self).wf(),
            final(self).text() == inserted_text(old(self).text(), old(self).cursor_state(), input@),
            final(self).cursor_state() == Cursor::Singleton(
                forward_target(
                    final(self).text(),
                    edit_start(old(self).cursor_state()),
                    Motion::Chars(byte_len(input@) as usize),
                ) as usize,
            ),
            cursor_fits(final(self).text(), final(self).cursor_state()),
    {
        let input_buf = TextBuf::from_str(input);
        let bytes = input_buf.len();
        let chars = chars_of(input);
        insert_text(&mut self.buf, &mut self.cursor, &chars, bytes);
    }

    /// Types the character `input` at the cursor, as
    /// [`CommandApp::enter_str`] does.
    pub fn enter_char(&mut self, input: char)
        requires
            old(self).wf(),
            cursor_fits(old(self).text(), old(self).cursor_state()),
            byte_len(old(self).text()) + byte_len(seq![input]) < usize::MAX,
        ensures
            final(self).wf(),
            final(self).text() == inserted_text(old(self).text(), old(self).cursor_state(), seq![input]),
            final(self).cursor_state() == Cursor::Singleton(
                forward_target(
                    final(self).text(),
                    edit_start(old(self).cursor_state()),
                    Motion::Chars(byte_len(seq![input]) as usize),
                ) as usize,
            ),
            cursor_fits(final(self).text(), final(self).cursor_state()),
    {
        let mut chars: Vec<char> = Vec::new();
        chars.push(input);
        let bytes = width_of(input);
        proof {
            assert(chars@ =~= seq![input]);
            assert(seq![input].drop_last() =~= Seq::<char>::empty());
            assert(byte_len(Seq::<char>::empty()) == 0);
            assert(byte_len(seq![input]) == crate::editor::char_width(input));
        }
        insert_text(&mut self.buf, &mut self.cursor, &chars, bytes);
    }

    /// Deletes the character before the cursor, or the selection. Returns
    /// `false` only when the cursor is at the start of an empty line.
    pub fn delete(&mut self) -> (r: bool)
        requires
            old(self).wf(),
            cursor_fits(old(self).text(), old(self).cursor_state()),
        ensures
            final(self).wf(),
            final(self).text() == deleted_text(old(self).text(), old(self).cursor_state()),
            final(self).cursor_state() == deleted_cursor(old(self).text(), old(self).cursor_state()),
            cursor_fits(final(self).text(), final(self).cursor_state()),
            r == !(old(self).cursor_state() == Cursor::Singleton(0) && old(self).text().len() == 0),
    {
        delete_text(&mut self.buf, &mut self.cursor)
    }

    /// Takes the text out, leaving an empty line with the cursor at its
    /// start.
    pub fn submit(&mut self) -> (r: String)
        requires
            old(self).wf(),
        ensures
            r@ == old(self).text(),
            final(self).wf(),
            final(self).text() == Seq::<char>::empty(),
            final(self).cursor_state() == Cursor::Singleton(0),
    {
        self.cursor.reset();
        let mut buf = TextBuf::new();
        std::mem::swap(&mut buf, &mut self.buf);
        buf.into_string()
    }
}

} // verus!
