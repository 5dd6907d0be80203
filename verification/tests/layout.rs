use bvr::instance::LineType;
use bvr::layout::{
    gutter_selection, split_bottom, split_half, split_left, split_line, split_prompt, split_top, Rect,
};
use bvr::shell::{shell_command_of, split_shell, ShellError};

fn rect(x: u16, y: u16, width: u16, height: u16) -> Rect {
    Rect { x, y, width, height }
}

fn mark(origin: bool, origin_start: bool, origin_end: bool, within: bool) -> LineType {
    LineType { origin, origin_start, origin_end, within, bookmarked: false }
}

#[test]
fn prompt_splits_off_its_indicator() {
    assert_eq!(split_prompt(rect(2, 5, 10, 1)), (rect(2, 5, 1, 1), rect(3, 5, 9, 1)));
}

#[test]
fn top_and_bottom_strips() {
    assert_eq!(split_top(rect(0, 0, 80, 24), 1), (rect(0, 0, 80, 1), rect(0, 1, 80, 23)));
    assert_eq!(split_top(rect(0, 0, 80, 2), 5), (rect(0, 0, 80, 5), rect(0, 5, 80, 0)));
    assert_eq!(split_bottom(rect(0, 0, 80, 24), 1), (rect(0, 0, 80, 23), rect(0, 23, 80, 1)));
    assert_eq!(split_bottom(rect(0, 3, 80, 4), 10), (rect(0, 3, 80, 0), rect(0, 3, 80, 4)));
}

#[test]
fn left_strip_and_halves() {
    assert_eq!(split_left(rect(1, 0, 10, 5), 4), (rect(1, 0, 4, 5), rect(5, 0, 6, 5)));
    assert_eq!(split_left(rect(0, 0, 3, 5), 4), (rect(0, 0, 4, 5), rect(4, 0, 0, 5)));
    assert_eq!(split_half(rect(0, 0, 11, 5)), (rect(0, 0, 5, 5), rect(5, 0, 6, 5)));
}

#[test]
fn line_splits_into_gutter_cursor_and_text() {
    let area = rect(0, 7, 40, 1);
    assert_eq!(split_line(area, None, false), (None, None, area));
    assert_eq!(
        split_line(area, Some(4), false),
        (Some(rect(0, 7, 4, 1)), Some(rect(5, 7, 1, 1)), rect(7, 7, 33, 1))
    );
    assert_eq!(
        split_line(area, None, true),
        (Some(rect(0, 7, 0, 1)), Some(rect(1, 7, 1, 1)), rect(3, 7, 37, 1))
    );
}

#[test]
fn gutter_marks() {
    assert_eq!(gutter_selection(mark(true, false, false, false)), "▶");
    assert_eq!(gutter_selection(mark(true, true, false, false)), "┌ ");
    assert_eq!(gutter_selection(mark(true, false, true, false)), "└");
    assert_eq!(gutter_selection(mark(false, false, false, true)), "│");
    assert_eq!(gutter_selection(mark(false, false, false, false)), "");
}

#[test]
fn shell_lines_split_into_program_and_arguments() {
    let command = split_shell("echo hi 'a b'").ok().unwrap();
    assert_eq!(command.program, "echo");
    assert_eq!(command.args, vec!["hi".to_string(), "a b".to_string()]);
}

#[test]
fn shell_line_errors() {
    assert!(matches!(split_shell(""), Err(ShellError::NoCommand)));
    assert!(matches!(split_shell("   "), Err(ShellError::NoCommand)));
    assert!(matches!(split_shell("echo 'unclosed"), Err(ShellError::Lexing)));
    assert!(matches!(split_shell("'unclosed"), Err(ShellError::NoCommand)));
    assert!(matches!(shell_command_of(vec![], true), Err(ShellError::NoCommand)));
    assert!(matches!(shell_command_of(vec!["ls".to_string()], true), Err(ShellError::Lexing)));
    let command = shell_command_of(vec!["ls".to_string(), "-l".to_string()], false).ok().unwrap();
    assert_eq!(command.program, "ls");
    assert_eq!(command.args, vec!["-l".to_string()]);
}
