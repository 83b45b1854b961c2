//! The editor state machine: two matrix text buffers driven by discrete
//! input events. Digits are stored as typed, a space keystroke is stored as
//! the cell separator, a row commit appends the row separator, and a compute
//! request parses both buffers and multiplies them. A failed compute leaves
//! the buffers and any prior answer untouched and records the failure.

use vstd::prelude::*;

use crate::cell::is_digit;
use crate::matrix::Matrix;
use crate::multiply::{multiply_matrices, spec_multiply, ComputeError};
use crate::parse::{
    parse_error_matches, parse_matrix, parse_ok, parsed_cells, ParseError, CELL_SEP, ROW_SEP,
};

verus! {

/// One discrete input event for the editor.
#[derive(Clone, Copy, Debug, PartialEq, Eq, Structural)]
pub enum InputEvent {
    /// One typed character.
    Character(char),
    /// Commit the current row.
    RowSeparator,
    /// Remove the last character.
    Backspace,
    /// Make the other buffer active.
    SwitchBuffer,
    /// Parse both buffers and multiply.
    Compute,
    /// End the session.
    Quit,
}

/// Why a compute request failed: which buffer did not parse, or why the
/// multiplication was rejected.
#[derive(Clone, Copy, Debug, PartialEq, Eq, Structural)]
pub enum AppError {
    /// The buffer with this index did not parse.
    Parse(usize, ParseError),
    /// Both buffers parsed but the product could not be formed.
    Compute(ComputeError),
}

/// The editor state: two matrix text buffers, the active-buffer selector,
/// the text typed since the last row commit (only for cursor display), the
/// last computed product, and the last compute failure.
pub struct App {
    /// Index of the buffer receiving keystrokes: 0 or 1.
    pub curr_matrix: usize,
    /// The text of matrix 0.
    pub buf0: Vec<char>,
    /// The text of matrix 1.
    pub buf1: Vec<char>,
    /// The characters typed since the last row commit or buffer switch.
    pub curr_string: Vec<char>,
    /// The last successfully computed product, if any.
    pub answer: Option<Matrix>,
    /// The last compute failure, if the most recent compute failed.
    pub last_error: Option<AppError>,
}

impl App {
    /// The editor is well formed: the selector names one of the two buffers.
    pub open spec fn wf(self) -> bool {
        self.curr_matrix < 2
    }

    /// The text of buffer `i`.
    pub open spec fn buffer_view(self, i: int) -> Seq<char> {
        if i == 0 {
            self.buf0@
        } else {
            self.buf1@
        }
    }

    /// The text of the buffer that is not active.
    pub open spec fn inactive_view(self) -> Seq<char> {
        self.buffer_view(1 - self.curr_matrix as int)
    }

    /// The text of the active buffer.
    pub open spec fn active_view(self) -> Seq<char> {
        self.buffer_view(self.curr_matrix as int)
    }

    /// The text of buffer `i`, for display.
    pub fn buffer(&self, i: usize) -> (r: &Vec<char>)
        requires
            i < 2,
        ensures
            r@ == self.buffer_view(i as int),
    {
        if i == 0 {
            &self.buf0
        } else {
            &self.buf1
        }
    }

    /// Switch the active buffer: reset the input trace and advance the
    /// selector cyclically.
    pub fn next(&mut self)
        requires
            old(self).wf(),
        ensures
            switch_post(*old(self), *final(self)),
    {
        self.curr_string = Vec::new();
        self.curr_matrix = (self.curr_matrix + 1) % 2;
    }

    /// Append one keystroke: a digit is stored as itself, a space as the
    /// cell separator, anything else is ignored. The stored character also
    /// goes to the input trace.
    pub fn append_char(&mut self, c: char)
        requires
            old(self).wf(),
        ensures
            char_post(*old(self), *final(self), c),
    {
        let stored: char = if c == ' ' {
            CELL_SEP
        } else {
            c
        };
        let u = c as u32;
        if c == ' ' || (48 <= u && u <= 57) {
            if self.curr_matrix == 0 {
                self.buf0.push(stored);
            } else {
                self.buf1.push(stored);
            }
            self.curr_string.push(stored);
        }
    }

    /// Commit the current row: append the row separator to the active buffer
    /// and reset the input trace.
    pub fn append_row_separator(&mut self)
        requires
            old(self).wf(),
        ensures
            row_sep_post(*old(self), *final(self)),
    {
        if self.curr_matrix == 0 {
            self.buf0.push(ROW_SEP);
        } else {
            self.buf1.push(ROW_SEP);
        }
        self.curr_string = Vec::new();
    }

    /// Remove the last character of the active buffer and of the input
    /// trace; on an empty buffer or trace this does nothing and is no error.
    pub fn backspace(&mut self)
        requires
            old(self).wf(),
        ensures
            backspace_post(*old(self), *final(self)),
    {
        if self.curr_matrix == 0 {
            self.buf0.pop();
        } else {
            self.buf1.pop();
        }
        self.curr_string.pop();
    }
}

impl Default for App {
    /// A fresh editor: both buffers empty, buffer 0 active, no answer and no
    /// error.
    fn default() -> (app: App)
        ensures
            app.wf(),
            app.curr_matrix == 0,
            app.buf0@ == Seq::<char>::empty(),
            app.buf1@ == Seq::<char>::empty(),
            app.curr_string@ == Seq::<char>::empty(),
            app.answer is None,
            app.last_error is None,
    {
        App {
            curr_matrix: 0,
            buf0: Vec::new(),
            buf1: Vec::new(),
            curr_string: Vec::new(),
            answer: None,
            last_error: None,
        }
    }
}

/// What one typed character stores into the buffer: a digit stores itself, a
/// space stores the cell separator, anything else stores nothing.
pub open spec fn stored_char(c: char) -> Option<char> {
    if c == ' ' {
        Some(CELL_SEP)
    } else if is_digit(c) {
        Some(c)
    } else {
        None
    }
}

/// Switching buffers: the trace resets, the selector advances cyclically,
/// and everything else is kept.
pub open spec fn switch_post(pre: App, post: App) -> bool {
    &&& post.wf()
    &&& post.curr_matrix == (pre.curr_matrix + 1) % 2
    &&& post.curr_string@ == Seq::<char>::empty()
    &&& post.buf0 == pre.buf0
    &&& post.buf1 == pre.buf1
    &&& post.answer == pre.answer
    &&& post.last_error == pre.last_error
}

/// Typing one character: the stored character, if any, is appended to the
/// active buffer and the trace; everything else is kept.
pub open spec fn char_post(pre: App, post: App, c: char) -> bool {
    &&& post.wf()
    &&& post.curr_matrix == pre.curr_matrix
    &&& post.answer == pre.answer
    &&& post.last_error == pre.last_error
    &&& post.inactive_view() == pre.inactive_view()
    &&& match stored_char(c) {
        Some(d) => post.active_view() == pre.active_view().push(d) && post.curr_string@
            == pre.curr_string@.push(d),
        None => post.active_view() == pre.active_view() && post.curr_string@ == pre.curr_string@,
    }
}

/// Committing a row: the row separator is appended to the active buffer, the
/// trace resets, and everything else is kept.
pub open spec fn row_sep_post(pre: App, post: App) -> bool {
    &&& post.wf()
    &&& post.curr_matrix == pre.curr_matrix
    &&& post.answer == pre.answer
    &&& post.last_error == pre.last_error
    &&& post.inactive_view() == pre.inactive_view()
    &&& post.active_view() == pre.active_view().push(ROW_SEP)
    &&& post.curr_string@ == Seq::<char>::empty()
}

/// Backspace: the last character of the active buffer and of the trace are
/// removed; an empty buffer or trace stays empty, and nothing else changes.
pub open spec fn backspace_post(pre: App, post: App) -> bool {
    &&& post.wf()
    &&& post.curr_matrix == pre.curr_matrix
    &&& post.answer == pre.answer
    &&& post.last_error == pre.last_error
    &&& post.inactive_view() == pre.inactive_view()
    &&& post.active_view() == drop_last_opt(pre.active_view())
    &&& post.curr_string@ == drop_last_opt(pre.curr_string@)
}

/// A sequence with its last character removed; the empty sequence is kept.
pub open spec fn drop_last_opt(s: Seq<char>) -> Seq<char> {
    if s.len() == 0 {
        s
    } else {
        s.drop_last()
    }
}

/// Computing: the buffers, selector and trace are kept; on success the
/// product is stored and the error cleared; on failure the answer is kept
/// and the failure recorded, naming the first buffer that did not parse or
/// the multiplication error.
pub open spec fn compute_post(pre: App, post: App) -> bool {
    &&& post.wf()
    &&& post.curr_matrix == pre.curr_matrix
    &&& post.buf0 == pre.buf0
    &&& post.buf1 == pre.buf1
    &&& post.curr_string == pre.curr_string
    &&& if !parse_ok(pre.buf0@) {
        post.answer == pre.answer && (post.last_error matches Some(AppError::Parse(which, e))
            && which == 0 && parse_error_matches(pre.buf0@, e))
    } else if !parse_ok(pre.buf1@) {
        post.answer == pre.answer && (post.last_error matches Some(AppError::Parse(which, e))
            && which == 1 && parse_error_matches(pre.buf1@, e))
    } else {
        match spec_multiply(parsed_cells(pre.buf0@), parsed_cells(pre.buf1@)) {
            Ok(prod) => (post.answer matches Some(m) && m.deep_view() == prod)
                && post.last_error is None,
            Err(ce) => post.answer == pre.answer && post.last_error == Some(
                AppError::Compute(ce),
            ),
        }
    }
}

/// Parse both buffers and multiply them, recording the outcome in the
/// editor: the answer slot on success, the last-error slot on failure.
pub fn parse_matrices(app: &mut App)
    requires
        old(app).wf(),
    ensures
        compute_post(*old(app), *final(app)),
{
    let m1 = match parse_matrix(&app.buf0) {
        Ok(m) => m,
        Err(e) => {
            app.last_error = Some(AppError::Parse(0, e));
            return ;
        },
    };
    let m2 = match parse_matrix(&app.buf1) {
        Ok(m) => m,
        Err(e) => {
            app.last_error = Some(AppError::Parse(1, e));
            return ;
        },
    };
    match multiply_matrices(&m1, &m2) {
        Ok(prod) => {
            app.answer = Some(prod);
            app.last_error = None;
        },
        Err(ce) => {
            app.last_error = Some(AppError::Compute(ce));
        },
    }
}

/// Apply one input event to the editor; the result is `false` exactly on the
/// quit event, which changes nothing and after which the caller stops.
pub fn apply_event(app: &mut App, ev: InputEvent) -> (running: bool)
    requires
        old(app).wf(),
    ensures
        final(app).wf(),
        running == !(ev == InputEvent::Quit),
        match ev {
            InputEvent::Character(c) => char_post(*old(app), *final(app), c),
            InputEvent::RowSeparator => row_sep_post(*old(app), *final(app)),
            InputEvent::Backspace => backspace_post(*old(app), *final(app)),
            InputEvent::SwitchBuffer => switch_post(*old(app), *final(app)),
            InputEvent::Compute => compute_post(*old(app), *final(app)),
            InputEvent::Quit => *final(app) == *old(app),
        },
{
    match ev {
        InputEvent::Character(c) => {
            app.append_char(c);
            true
        },
        InputEvent::RowSeparator => {
            app.append_row_separator();
            true
        },
        InputEvent::Backspace => {
            app.backspace();
            true
        },
        InputEvent::SwitchBuffer => {
            app.next();
            true
        },
        InputEvent::Compute => {
            parse_matrices(app);
            true
        },
        InputEvent::Quit => false,
    }
}

} // verus!
