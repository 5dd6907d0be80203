use bvr::command::{CommandApp, CursorJump, CursorMovement};
use bvr::cursor::{Cursor, SelectionOrigin};
use bvr::direction::{Direction, HDirection};
use bvr::prompt::{PromptApp, PromptDelta, PromptMovement};

fn typed(text: &str) -> CommandApp {
    let mut app = CommandApp::new();
    app.enter_str(text);
    app
}

#[test]
fn command_typing_moves_cursor_to_end() {
    let app = typed("hello");
    assert_eq!(app.buf(), "hello");
    assert_eq!(*app.cursor(), Cursor::Singleton(5));
}

#[test]
fn command_enter_char_inserts_at_cursor() {
    let mut app = typed("hllo");
    app.move_cursor(HDirection::Left, CursorMovement::new(false, CursorJump::Boundary));
    app.move_cursor(HDirection::Right, CursorMovement::new(false, CursorJump::Single));
    app.enter_char('e');
    assert_eq!(app.buf(), "hello");
    assert_eq!(*app.cursor(), Cursor::Singleton(2));
}

#[test]
fn command_word_moves() {
    let mut app = typed("foo bar baz");
    app.move_cursor(HDirection::Left, CursorMovement::new(false, CursorJump::Word));
    assert_eq!(*app.cursor(), Cursor::Singleton(8));
    // From just after a space the move goes back over the whitespace only.
    app.move_cursor(HDirection::Left, CursorMovement::new(false, CursorJump::Word));
    assert_eq!(*app.cursor(), Cursor::Singleton(7));
    app.move_cursor(HDirection::Left, CursorMovement::new(false, CursorJump::Word));
    assert_eq!(*app.cursor(), Cursor::Singleton(4));
    app.move_cursor(HDirection::Right, CursorMovement::new(false, CursorJump::Word));
    assert_eq!(*app.cursor(), Cursor::Singleton(7));
    app.move_cursor(HDirection::Right, CursorMovement::new(false, CursorJump::Word));
    assert_eq!(*app.cursor(), Cursor::Singleton(8));
    app.move_cursor(HDirection::Right, CursorMovement::new(false, CursorJump::Boundary));
    assert_eq!(*app.cursor(), Cursor::Singleton(11));
}

#[test]
fn command_word_back_from_whitespace() {
    let mut app = typed("ab  ");
    app.move_cursor(HDirection::Left, CursorMovement::new(false, CursorJump::Word));
    assert_eq!(*app.cursor(), Cursor::Singleton(2));
}

#[test]
fn command_delete_before_cursor() {
    let mut app = typed("abc");
    assert!(app.delete());
    assert_eq!(app.buf(), "ab");
    assert_eq!(*app.cursor(), Cursor::Singleton(2));
}

#[test]
fn command_delete_at_start_reports_text() {
    let mut app = typed("ab");
    app.move_cursor(HDirection::Left, CursorMovement::new(false, CursorJump::Boundary));
    assert!(app.delete());
    assert_eq!(app.buf(), "ab");
    let mut empty = CommandApp::new();
    assert!(!empty.delete());
}

#[test]
fn command_selection_is_replaced() {
    let mut app = typed("hello world");
    app.move_cursor(HDirection::Left, CursorMovement::new(true, CursorJump::Word));
    assert_eq!(*app.cursor(), Cursor::Selection(6, 11, SelectionOrigin::Left));
    app.enter_str("there");
    assert_eq!(app.buf(), "hello there");
    assert_eq!(*app.cursor(), Cursor::Singleton(11));
}

#[test]
fn command_selection_is_deleted() {
    let mut app = typed("hello world");
    app.move_cursor(HDirection::Left, CursorMovement::new(true, CursorJump::Word));
    assert!(app.delete());
    assert_eq!(app.buf(), "hello ");
    assert_eq!(*app.cursor(), Cursor::Singleton(6));
}

#[test]
fn command_submit_takes_text() {
    let mut app = typed("quit");
    assert_eq!(app.submit(), "quit");
    assert_eq!(app.buf(), "");
    assert_eq!(*app.cursor(), Cursor::Singleton(0));
}

#[test]
fn command_multibyte_cursor_moves_by_bytes_of_input() {
    let mut app = typed("ab");
    app.move_cursor(HDirection::Left, CursorMovement::new(false, CursorJump::Boundary));
    app.enter_char('é');
    assert_eq!(app.buf(), "éab");
    // The cursor moves on by as many characters as the input has bytes.
    assert_eq!(*app.cursor(), Cursor::Singleton(3));
    app.move_cursor(HDirection::Left, CursorMovement::new(false, CursorJump::Single));
    assert_eq!(*app.cursor(), Cursor::Singleton(2));
    app.move_cursor(HDirection::Left, CursorMovement::new(false, CursorJump::Single));
    assert_eq!(*app.cursor(), Cursor::Singleton(0));
}

#[test]
fn command_type_then_delete_restores() {
    let mut app = typed("abcd");
    app.move_cursor(HDirection::Left, CursorMovement::new(false, CursorJump::Single));
    app.move_cursor(HDirection::Left, CursorMovement::new(false, CursorJump::Single));
    app.enter_char('x');
    assert_eq!(app.buf(), "abxcd");
    assert!(app.delete());
    assert_eq!(app.buf(), "abcd");
    assert_eq!(*app.cursor(), Cursor::Singleton(2));
}

fn prompt_with(text: &str) -> PromptApp {
    let mut p = PromptApp::new();
    p.enter_str(text);
    p
}

#[test]
fn prompt_submit_and_recall() {
    let mut p = prompt_with("first");
    assert_eq!(p.submit(), "first");
    p.enter_str("second");
    assert_eq!(p.submit(), "second");
    assert_eq!(p.buf(), "");
    p.backward();
    assert_eq!(p.buf(), "second");
    assert_eq!(p.cursor(), Cursor::Singleton(6));
    p.backward();
    assert_eq!(p.buf(), "first");
    p.backward();
    assert_eq!(p.buf(), "first");
    p.forward();
    assert_eq!(p.buf(), "second");
    p.forward();
    assert_eq!(p.buf(), "");
}

#[test]
fn prompt_repeat_is_not_recorded_twice() {
    let mut p = prompt_with("same");
    p.submit();
    p.enter_str("same");
    p.submit();
    p.backward();
    assert_eq!(p.buf(), "same");
    p.backward();
    assert_eq!(p.buf(), "same");
    p.forward();
    assert_eq!(p.buf(), "");
}

#[test]
fn prompt_editing_history_entry_makes_draft() {
    let mut p = prompt_with("abc");
    p.submit();
    p.backward();
    p.enter_char('d');
    assert_eq!(p.buf(), "abcd");
    p.backward();
    assert_eq!(p.buf(), "abc");
}

#[test]
fn prompt_take_removes_browsed_entry() {
    let mut p = prompt_with("one");
    p.submit();
    p.enter_str("two");
    p.submit();
    p.backward();
    p.backward();
    assert_eq!(p.take(), "one");
    p.backward();
    assert_eq!(p.buf(), "two");
    p.backward();
    assert_eq!(p.buf(), "two");
}

#[test]
fn prompt_replace_last_word() {
    let mut p = prompt_with("open some/fi");
    p.replace_last_word("file.txt");
    assert_eq!(p.buf(), "open file.txt");
    let mut q = prompt_with("word");
    q.replace_last_word("other");
    assert_eq!(q.buf(), "other");
}

#[test]
fn prompt_moves_and_deletes() {
    let mut p = prompt_with("one two");
    p.move_cursor(Direction::Back, PromptMovement::new(false, PromptDelta::Word));
    assert_eq!(p.cursor(), Cursor::Singleton(4));
    p.move_cursor(Direction::Back, PromptMovement::new(true, PromptDelta::Number(2)));
    assert_eq!(p.cursor(), Cursor::Selection(2, 4, SelectionOrigin::Left));
    assert!(p.delete());
    assert_eq!(p.buf(), "ontwo");
    assert_eq!(p.cursor(), Cursor::Singleton(2));
    p.move_cursor(Direction::Next, PromptMovement::new(false, PromptDelta::Boundary));
    assert_eq!(p.cursor(), Cursor::Singleton(5));
}

#[test]
fn whitespace_agrees_with_std_on_every_char() {
    for u in 0u32..0x110000 {
        if let Some(c) = char::from_u32(u) {
            assert_eq!(bvr::editor::is_whitespace(c), c.is_whitespace(), "{u:#x}");
        }
    }
}
