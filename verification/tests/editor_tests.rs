use matrix_console::editor::{apply_event, parse_matrices, App, AppError, InputEvent};
use matrix_console::multiply::ComputeError;
use matrix_console::parse::ParseError;

fn cv(s: &str) -> Vec<char> {
    s.chars().collect()
}

fn type_text(app: &mut App, text: &str) {
    for c in text.chars() {
        if c == '\n' {
            assert!(apply_event(app, InputEvent::RowSeparator));
        } else {
            assert!(apply_event(app, InputEvent::Character(c)));
        }
    }
}

#[test]
fn fresh_editor_is_empty() {
    let app = App::default();
    assert_eq!(app.curr_matrix, 0);
    assert!(app.buf0.is_empty());
    assert!(app.buf1.is_empty());
    assert!(app.curr_string.is_empty());
    assert!(app.answer.is_none());
    assert!(app.last_error.is_none());
}

#[test]
fn backspace_on_empty_buffer_is_a_noop() {
    let mut app = App::default();
    app.backspace();
    assert!(app.buf0.is_empty());
    assert!(app.buf1.is_empty());
    assert!(app.curr_string.is_empty());
    assert!(app.answer.is_none());
}

#[test]
fn backspace_removes_last_character() {
    let mut app = App::default();
    type_text(&mut app, "1 2");
    app.backspace();
    assert_eq!(*app.buffer(0), cv("1_"));
    assert_eq!(app.curr_string, cv("1_"));
}

#[test]
fn space_is_stored_as_the_cell_separator() {
    let mut app = App::default();
    type_text(&mut app, "1 2");
    assert_eq!(*app.buffer(0), cv("1_2"));
}

#[test]
fn letters_are_ignored() {
    let mut app = App::default();
    app.append_char('x');
    app.append_char('-');
    assert!(app.buf0.is_empty());
    assert!(app.curr_string.is_empty());
}

#[test]
fn row_separator_commits_a_row_and_clears_the_trace() {
    let mut app = App::default();
    type_text(&mut app, "1 2");
    assert_eq!(app.curr_string, cv("1_2"));
    apply_event(&mut app, InputEvent::RowSeparator);
    assert_eq!(*app.buffer(0), cv("1_2\n"));
    assert!(app.curr_string.is_empty());
}

#[test]
fn backspace_after_row_commit_pops_buffer_but_trace_stays_empty() {
    let mut app = App::default();
    type_text(&mut app, "12\n");
    assert!(app.curr_string.is_empty());
    app.backspace();
    assert_eq!(*app.buffer(0), cv("12"));
    assert!(app.curr_string.is_empty());
}

#[test]
fn switch_buffer_cycles_between_the_two_buffers() {
    let mut app = App::default();
    assert_eq!(app.curr_matrix, 0);
    app.next();
    assert_eq!(app.curr_matrix, 1);
    app.next();
    assert_eq!(app.curr_matrix, 0);
}

#[test]
fn switching_routes_keystrokes_to_the_other_buffer() {
    let mut app = App::default();
    type_text(&mut app, "1");
    apply_event(&mut app, InputEvent::SwitchBuffer);
    type_text(&mut app, "2");
    assert_eq!(*app.buffer(0), cv("1"));
    assert_eq!(*app.buffer(1), cv("2"));
}

#[test]
fn compute_end_to_end_two_by_two() {
    let mut app = App::default();
    type_text(&mut app, "1 2\n3 4");
    apply_event(&mut app, InputEvent::SwitchBuffer);
    type_text(&mut app, "5 6\n7 8");
    apply_event(&mut app, InputEvent::Compute);
    assert_eq!(app.answer, Some(vec![vec![19, 22], vec![43, 50]]));
    assert!(app.last_error.is_none());
}

#[test]
fn compute_dimension_mismatch_leaves_the_answer_untouched() {
    let mut app = App::default();
    type_text(&mut app, "1 2");
    apply_event(&mut app, InputEvent::SwitchBuffer);
    type_text(&mut app, "1 2");
    apply_event(&mut app, InputEvent::Compute);
    assert!(app.answer.is_none());
    assert_eq!(
        app.last_error,
        Some(AppError::Compute(ComputeError::DimensionMismatch { a_cols: 2, b_rows: 1 }))
    );
    assert_eq!(*app.buffer(0), cv("1_2"));
    assert_eq!(*app.buffer(1), cv("1_2"));
}

#[test]
fn compute_names_the_buffer_that_failed_to_parse() {
    let mut app = App::default();
    type_text(&mut app, "1");
    parse_matrices(&mut app);
    assert_eq!(app.last_error, Some(AppError::Parse(1, ParseError::EmptyMatrix)));
    assert!(app.answer.is_none());
}

#[test]
fn failed_compute_keeps_the_previous_answer() {
    let mut app = App::default();
    type_text(&mut app, "2");
    apply_event(&mut app, InputEvent::SwitchBuffer);
    type_text(&mut app, "3");
    apply_event(&mut app, InputEvent::Compute);
    assert_eq!(app.answer, Some(vec![vec![6]]));
    apply_event(&mut app, InputEvent::SwitchBuffer);
    type_text(&mut app, " ");
    apply_event(&mut app, InputEvent::Compute);
    assert_eq!(app.answer, Some(vec![vec![6]]));
    assert_eq!(
        app.last_error,
        Some(AppError::Parse(0, ParseError::InvalidCell(0, 1)))
    );
}

#[test]
fn quit_is_the_only_terminal_event() {
    let mut app = App::default();
    assert!(apply_event(&mut app, InputEvent::Character('1')));
    assert!(apply_event(&mut app, InputEvent::RowSeparator));
    assert!(apply_event(&mut app, InputEvent::Backspace));
    assert!(apply_event(&mut app, InputEvent::SwitchBuffer));
    assert!(apply_event(&mut app, InputEvent::Compute));
    assert!(!apply_event(&mut app, InputEvent::Quit));
}
