use vstd::prelude::*;

use crate::cursor::{Cursor, CursorState};
use crate::direction::Direction;
use crate::editor::{
    byte_len, chars_of, cursor_fits, delete_text, deleted_cursor, deleted_text, edit_start,
    forward_target, insert_text, inserted_text, last_before, move_ok, move_over, moved, width_of,
    is_whitespace, lemma_first_from_range, lemma_offset_end, lemma_offset_mono,
    CharClass, Motion, TextBuf,
};

verus! {

/// How far a prompt cursor move goes: a number of characters, to the next
/// word, or to the end.
#[derive(Clone, Copy, PartialEq, Eq, Debug, Structural)]
pub enum PromptDelta {
    Number(usize),
    Word,
    Boundary,
}

/// A prompt cursor move: whether it extends a selection, and how far it
/// goes.
#[derive(Clone, Copy, PartialEq, Eq, Debug, Structural)]
pub struct PromptMovement {
    select: bool,
    delta: PromptDelta,
}

impl PromptMovement {
    /// Whether the move extends a selection.
    pub closed spec fn spec_select(&self) -> bool {
        self.select
    }

    /// How far the move goes.
    pub closed spec fn spec_delta(&self) -> PromptDelta {
        self.delta
    }

    /// A move.
    pub fn new(select: bool, delta: PromptDelta) -> (r: Self)
        ensures
            r.spec_select() == select,
            r.spec_delta() == delta,
    {
        PromptMovement { select, delta }
    }

    /// The distance the move covers.
    pub open spec fn motion(&self) -> Motion {
        match self.spec_delta() {
            PromptDelta::Number(n) => Motion::Chars(n),
            PromptDelta::Word => Motion::Word,
            PromptDelta::Boundary => Motion::Boundary,
        }
    }

    fn motion_of(&self) -> (r: Motion)
        ensures
            r == self.motion(),
    {
        match self.delta {
            PromptDelta::Number(n) => Motion::Chars(n),
            PromptDelta::Word => Motion::Word,
            PromptDelta::Boundary => Motion::Boundary,
        }
    }
}

/// The texts of a list of lines.
pub open spec fn texts_of(lines: Seq<TextBuf>) -> Seq<Seq<char>> {
    lines.map_values(|t: TextBuf| t@)
}

/// `s` with its last word replaced by `word`: everything after its last
/// space, or all of it when it has none.
pub open spec fn replaced_last_word(s: Seq<char>, word: Seq<char>) -> Seq<char> {
    let j = last_before(s, s.len() as int, CharClass::Space);
    if j < 0 {
        word
    } else {
        s.take(j + 1) + word
    }
}

/// The history once the entry at `index`, if one is shown, is taken out.
pub open spec fn history_after_take(h: Seq<Seq<char>>, index: usize) -> Seq<Seq<char>> {
    if index < h.len() {
        h.remove(index as int)
    } else {
        h
    }
}

/// The history with `line` appended, unless it repeats the last entry.
pub open spec fn appended_unless_repeat(h: Seq<Seq<char>>, line: Seq<char>) -> Seq<Seq<char>> {
    if h.len() > 0 && h.last() == line {
        h
    } else {
        h.push(line)
    }
}

/// After a submit the history ends with the submitted line, so the first
/// step back through the history shows it again.
pub proof fn law_submit_then_recall(h: Seq<Seq<char>>, index: usize, line: Seq<char>)
    ensures
        ({
            let after = appended_unless_repeat(history_after_take(h, index), line);
            &&& after.len() > 0
            &&& after[after.len() - 1] == line
        }),
{
}

/// A prompt with a history of submitted lines: the line shown is either an
/// entry of the history being browsed, or the draft.
pub struct PromptApp {
    history: Vec<TextBuf>,
    index: usize,
    buf: TextBuf,
    cursor: CursorState,
}

impl PromptApp {
    /// The submitted lines, oldest first.
    pub closed spec fn history(&self) -> Seq<Seq<char>> {
        texts_of(self.history@)
    }

    /// The position in the history being shown; the history's length when
    /// the draft is shown.
    pub closed spec fn index(&self) -> usize {
        self.index
    }

    /// The line being written.
    pub closed spec fn draft(&self) -> Seq<char> {
        self.buf@
    }

    /// The cursor.
    pub closed spec fn cursor_state(&self) -> Cursor {
        self.cursor.state
    }

    /// The line shown.
    pub open spec fn current(&self) -> Seq<char> {
        if self.index() < self.history().len() {
            self.history()[self.index() as int]
        } else {
            self.draft()
        }
    }

    /// Every line is well formed and the position is within the history or
    /// just past it.
    pub closed spec fn wf(&self) -> bool {
        &&& forall|i: int| 0 <= i < self.history@.len() ==> (#[trigger] self.history@[i]).wf()
        &&& self.buf.wf()
        &&& self.index <= self.history@.len()
    }

    /// The shown line, well formed.
    fn shown(&self) -> (r: &TextBuf)
        requires
            self.wf(),
        ensures
            r.wf(),
            r@ == self.current(),
    {
        if self.index < self.history.len() {
            &self.history[self.index]
        } else {
            &self.buf
        }
    }

    /// Makes the shown line the draft: an entry being browsed is copied
    /// into the draft, and the history is left.
    fn edit_shown(&mut self)
        requires
            old(self).wf(),
        ensures
            final(self).wf(),
            final(self).history() == old(self).history(),
            final(self).draft() == old(self).current(),
            final(self).index() == old(self).history().len(),
            final(self).cursor_state() == old(self).cursor_state(),
    {
        if self.index < self.history.len() {
            self.buf = self.history[self.index].duplicate();
            self.index = self.history.len();
        }
    }

    /// An empty prompt with no history.
    pub fn new() -> (r: Self)
        ensures
            r.wf(),
            r.history() == Seq::<Seq<char>>::empty(),
            r.index() == 0,
            r.draft() == Seq::<char>::empty(),
            r.cursor_state() == Cursor::Singleton(0),
    {
        let r = PromptApp {
            history: Vec::new(),
            index: 0,
            buf: TextBuf::new(),
            cursor: CursorState::new(),
        };
        proof {
            assert(r.history() =~= Seq::<Seq<char>>::empty());
        }
        r
    }

    /// The line shown.
    pub fn buf(&self) -> (r: &str)
        requires
            self.wf(),
        ensures
            r@ == self.current(),
    {
        self.shown().as_str()
    }

    /// Whether the cursor's positions are character boundaries of the line
    /// shown, a selection in order.
    pub fn cursor_fits_line(&self) -> (r: bool)
        requires
            self.wf(),
        ensures
            r == cursor_fits(self.current(), self.cursor_state()),
    {
        let t = self.shown();
        match self.cursor.state() {
            Cursor::Singleton(i) => t.is_char_boundary(i),
            Cursor::Selection(a, b, _) => t.is_char_boundary(a) && t.is_char_boundary(b) && a <= b,
        }
    }

    /// Whether a move of the cursor in `direction` by `movement` can be made
    /// without reading across a character.
    pub fn can_move(&self, direction: Direction, movement: PromptMovement) -> (r: bool)
        requires
            self.wf(),
        ensures
            r == move_ok(
                self.current(),
                self.cursor_state(),
                direction == Direction::Back,
                movement.spec_select(),
                movement.motion(),
            ),
    {
        let t = self.shown();
        let ghost s = t@;
        let select = movement.select;
        let c = self.cursor.state();
        let pos: usize = match c {
            Cursor::Singleton(i) => i,
            Cursor::Selection(a, b, dir) => if select {
                match dir {
                    crate::cursor::SelectionOrigin::Right => b,
                    crate::cursor::SelectionOrigin::Left => a,
                }
            } else {
                return true;
            },
        };
        let m = movement.motion_of();
        if let Motion::Boundary = m {
            return true;
        }
        if !t.is_char_boundary(pos) {
            return false;
        }
        let back = match direction {
            Direction::Back => true,
            Direction::Next => false,
        };
        if back {
            return true;
        }
        if let Motion::Word = m {
            let k = t.index_of(pos);
            proof {
                lemma_offset_mono(s, k as int, s.len() as int);
                lemma_offset_end(s);
            }
            if k < t.char_count() && is_whitespace(t.char_at(k)) {
                return true;
            }
            let len = t.len();
            let st = if pos < len {
                pos + 1
            } else {
                len
            };
            if !t.is_char_boundary(st) {
                return false;
            }
            let k1 = t.index_of(st);
            match t.find_first_from(k1, CharClass::Whitespace) {
                None => true,
                Some(j) => {
                    proof {
                        lemma_first_from_range(s, k1 as int, CharClass::Whitespace);
                    }
                    let d = j - k1;
                    match d.checked_add(pos) {
                        Some(x) => x < usize::MAX,
                        None => false,
                    }
                },
            }
        } else {
            true
        }
    }

    /// The number of bytes of the line shown.
    pub fn line_len(&self) -> (r: usize)
        requires
            self.wf(),
        ensures
            r == byte_len(self.current()),
    {
        self.shown().len()
    }

    /// The cursor.
    pub fn cursor(&self) -> (r: Cursor)
        ensures
            r == self.cursor_state(),
    {
        self.cursor.state()
    }

    /// Moves the cursor back or forward over the line shown.
    pub fn move_cursor(&mut self, direction: Direction, movement: PromptMovement)
        requires
            old(self).wf(),
            move_ok(
                old(self).current(),
                old(self).cursor_state(),
                direction == Direction::Back,
                movement.spec_select(),
                movement.motion(),
            ),
        ensures
            final(self).wf(),
            final(self).history() == old(self).history(),
            final(self).index() == old(self).index(),
            final(self).draft() == old(self).draft(),
            final(self).cursor_state() == moved(
                old(self).current(),
                old(self).cursor_state(),
                direction == Direction::Back,
                movement.spec_select(),
                movement.motion(),
            ),
    {
        let m = movement.motion_of();
        let back = match direction {
            Direction::Back => true,
            Direction::Next => false,
        };
        if self.index < self.history.len() {
            move_over(&self.history[self.index], &mut self.cursor, back, movement.select, m);
        } else {
            move_over(&self.buf, &mut self.cursor, back, movement.select, m);
        }
    }

    /// Types `input` at the cursor into the line shown, which becomes the
    /// draft; the cursor moves forward from the start of the edit by as
    /// many characters as `input` has bytes.
    pub fn enter_str(&mut self, input: &str)
        requires
            old(self).wf(),
            cursor_fits(old(self).current(), old(self).cursor_state()),
            byte_len(old(self).current()) + byte_len(input@) < usize::MAX,
        ensures
            final(self).wf(),
            final(self).history() == old(self).history(),
            final(self).index() == old(self).history().len(),
            final(self).draft() == inserted_text(old(self).current(), old(self).cursor_state(), input@),
            final(self).cursor_state() == Cursor::Singleton(
                forward_target(
                    final(self).draft(),
                    edit_start(old(self).cursor_state()),
                    Motion::Chars(byte_len(input@) as usize),
                ) as usize,
            ),
            cursor_fits(final(self).draft(), final(self).cursor_state()),
    {
        self.edit_shown();
        let input_buf = TextBuf::from_str(input);
        let bytes = input_buf.len();
        let chars = chars_of(input);
        insert_text(&mut self.buf, &mut self.cursor, &chars, bytes);
    }

    /// Types the character `input` at the cursor, as
    /// [`PromptApp::enter_str`] does.
    pub fn enter_char(&mut self, input: char)
        requires
            old(self).wf(),
            cursor_fits(old(self).current(), old(self).cursor_state()),
            byte_len(old(self).current()) + byte_len(seq![input]) < usize::MAX,
        ensures
            final(self).wf(),
            final(self).history() == old(self).history(),
            final(self).index() == old(self).history().len(),
            final(self).draft() == inserted_text(old(self).current(), old(self).cursor_state(), seq![input]),
            final(self).cursor_state() == Cursor::Singleton(
                forward_target(
                    final(self).draft(),
                    edit_start(old(self).cursor_state()),
                    Motion::Chars(byte_len(seq![input]) as usize),
                ) as usize,
            ),
            cursor_fits(final(self).draft(), final(self).cursor_state()),
    {
        self.edit_shown();
        let mut chars: Vec<char> = Vec::new();
        chars.push(input);
        let bytes = width_of(input);
        proof {
            assert(chars@ =~= seq![input]);
            assert(seq![input].drop_last() =~= Seq::<char>::empty());
            assert(byte_len(Seq::<char>::empty()) == 0);
            assert(byte_len(seq![input]) == crate::editor::char_width(input));
        }
        insert_text(&mut self.buf, &mut self.cursor, &chars, bytes);
    }

    /// Deletes the character before the cursor, or the selection, from the
    /// line shown, which becomes the draft. Returns `false` only when the
    /// cursor is at the start of an empty line.
    pub fn delete(&mut self) -> (r: bool)
        requires
            old(self).wf(),
            cursor_fits(old(self).current(), old(self).cursor_state()),
        ensures
            final(self).wf(),
            final(self).history() == old(self).history(),
            final(self).index() == old(self).history().len(),
            final(self).draft() == deleted_text(old(self).current(), old(self).cursor_state()),
            final(self).cursor_state() == deleted_cursor(old(self).current(), old(self).cursor_state()),
            cursor_fits(final(self).draft(), final(self).cursor_state()),
            r == !(old(self).cursor_state() == Cursor::Singleton(0) && old(self).current().len() == 0),
    {
        self.edit_shown();
        delete_text(&mut self.buf, &mut self.cursor)
    }

    /// Replaces the last word of the line shown, in place, by `word`: what
    /// follows its last space, or the whole line when it has none. The
    /// cursor stays where it is.
    pub fn replace_last_word(&mut self, word: &str)
        requires
            old(self).wf(),
            byte_len(replaced_last_word(old(self).current(), word@)) < usize::MAX,
        ensures
            final(self).wf(),
            final(self).index() == old(self).index(),
            final(self).cursor_state() == old(self).cursor_state(),
            old(self).index() < old(self).history().len() ==> {
                &&& final(self).history() == old(self).history().update(
                    old(self).index() as int,
                    replaced_last_word(old(self).current(), word@),
                )
                &&& final(self).draft() == old(self).draft()
            },
            old(self).index() >= old(self).history().len() ==> {
                &&& final(self).history() == old(self).history()
                &&& final(self).draft() == replaced_last_word(old(self).current(), word@)
            },
    {
        let words = chars_of(word);
        let replaced = {
            let line = self.shown();
            let n = line.char_count();
            match line.find_last_before(n, CharClass::Space) {
                Some(j) => {
                    proof {
                        crate::editor::lemma_last_before_range(line@, n as int, CharClass::Space);
                    }
                    let mut t = line.duplicate();
                    proof {
                        assert(t@.take(j + 1) + words@ + t@.skip(n as int) =~= t@.take(j + 1) + words@);
                        assert(t@.skip(n as int) =~= Seq::<char>::empty());
                    }
                    t.splice(j + 1, n, &words);
                    t
                },
                None => TextBuf::from_chars(words),
            }
        };
        if self.index < self.history.len() {
            let ghost before = self.history@;
            self.history.set(self.index, replaced);
            proof {
                assert(self.history() =~= texts_of(before).update(self.index as int, replaced@));
            }
        } else {
            self.buf = replaced;
        }
    }

    /// Shows the previous entry of the history, the cursor at its end.
    pub fn backward(&mut self)
        requires
            old(self).wf(),
        ensures
            final(self).wf(),
            final(self).history() == old(self).history(),
            final(self).draft() == old(self).draft(),
            final(self).index() == (if old(self).index() > 0 {
                old(self).index() - 1
            } else {
                0
            }),
            final(self).cursor_state() == Cursor::Singleton(byte_len(final(self).current()) as usize),
    {
        self.index = self.index.saturating_sub(1);
        let end = self.shown().len();
        self.cursor.place(end);
    }

    /// Shows the next entry of the history, or the draft after the last,
    /// the cursor at its end.
    pub fn forward(&mut self)
        requires
            old(self).wf(),
        ensures
            final(self).wf(),
            final(self).history() == old(self).history(),
            final(self).draft() == old(self).draft(),
            final(self).index() == (if old(self).index() < old(self).history().len() {
                old(self).index() + 1
            } else {
                old(self).history().len() as int
            }),
            final(self).cursor_state() == Cursor::Singleton(byte_len(final(self).current()) as usize),
    {
        let next = self.index.saturating_add(1);
        self.index = if next < self.history.len() {
            next
        } else {
            self.history.len()
        };
        let end = self.shown().len();
        self.cursor.place(end);
    }

    /// Takes the line shown out of the prompt: an entry being browsed
    /// leaves the history, or the draft is emptied. The cursor goes back to
    /// the start, and the draft is shown.
    fn take_line(&mut self) -> (r: TextBuf)
        requires
            old(self).wf(),
        ensures
            final(self).wf(),
            r.wf(),
            r@ == old(self).current(),
            final(self).cursor_state() == Cursor::Singleton(0),
            old(self).index() < old(self).history().len() ==> {
                &&& final(self).history() == old(self).history().remove(old(self).index() as int)
                &&& final(self).draft() == old(self).draft()
            },
            old(self).index() >= old(self).history().len() ==> {
                &&& final(self).history() == old(self).history()
                &&& final(self).draft() == Seq::<char>::empty()
            },
            final(self).index() == final(self).history().len(),
    {
        self.cursor.reset();
        if self.index < self.history.len() {
            let ghost before = self.history@;
            let output = self.history.remove(self.index);
            self.index = self.history.len();
            proof {
                assert(self.history() =~= texts_of(before).remove(old(self).index() as int));
            }
            output
        } else {
            let mut output = TextBuf::new();
            std::mem::swap(&mut output, &mut self.buf);
            output
        }
    }

    /// Takes the line shown out of the prompt, as a string: an entry being
    /// browsed leaves the history, or the draft is emptied.
    pub fn take(&mut self) -> (r: String)
        requires
            old(self).wf(),
        ensures
            final(self).wf(),
            r@ == old(self).current(),
            final(self).cursor_state() == Cursor::Singleton(0),
            old(self).index() < old(self).history().len() ==> {
                &&& final(self).history() == old(self).history().remove(old(self).index() as int)
                &&& final(self).draft() == old(self).draft()
            },
            old(self).index() >= old(self).history().len() ==> {
                &&& final(self).history() == old(self).history()
                &&& final(self).draft() == Seq::<char>::empty()
            },
            final(self).index() == final(self).history().len(),
    {
        self.take_line().into_string()
    }

    /// Takes the line shown out, as [`PromptApp::take`] does, and appends
    /// it to the history unless it repeats the last entry.
    pub fn submit(&mut self) -> (r: String)
        requires
            old(self).wf(),
        ensures
            final(self).wf(),
            r@ == old(self).current(),
            final(self).cursor_state() == Cursor::Singleton(0),
            final(self).history() == appended_unless_repeat(
                history_after_take(old(self).history(), old(self).index()),
                r@,
            ),
            final(self).index() == final(self).history().len(),
            old(self).index() < old(self).history().len() ==> final(self).draft() == old(self).draft(),
            old(self).index() >= old(self).history().len() ==> final(self).draft() == Seq::<char>::empty(),
    {
        let output = self.take_line();
        let n = self.history.len();
        let repeated = n > 0 && self.history[n - 1].same_text(&output);
        if !repeated {
            let copy = output.duplicate();
            let ghost before = self.history@;
            self.history.push(copy);
            self.index = self.history.len();
            proof {
                assert(self.history() =~= texts_of(before).push(output@));
            }
        }
        output.into_string()
    }
}

} // verus!
