//! Putting rich text on the clipboard for pasting into the Teams input box.
//!
//! The same HTML goes on the clipboard twice: as HTML (formatted paste) and
//! as plain text, tags included, so that what was copied can be checked and
//! a plain paste shows at once that it was the wrong one.

use vstd::prelude::*;
use crate::text::{chars_of, string_from_chars};

verus! {

/// Why the clipboard could not be written.
#[derive(Debug)]
pub enum ClipboardError {
    /// The clipboard could not be opened.
    Open(String),
    /// Writing to it failed.
    Write(String),
}

/// The text of a clipboard error.
pub open spec fn clipboard_error_text(e: ClipboardError) -> Seq<char> {
    match e {
        ClipboardError::Open(m) => "클립보드를 열지 못함: "@ + m@,
        ClipboardError::Write(m) => "클립보드 쓰기 실패: "@ + m@,
    }
}

impl ClipboardError {
    /// The error's message.
    pub fn message(&self) -> (r: String)
        ensures
            r@ == clipboard_error_text(*self),
    {
        let (head, m) = match self {
            ClipboardError::Open(m) => (chars_of("클립보드를 열지 못함: "), m),
            ClipboardError::Write(m) => (chars_of("클립보드 쓰기 실패: "), m),
        };
        let mut v = head;
        let mut w = chars_of(m.as_str());
        v.append(&mut w);
        string_from_chars(&v)
    }
}

} // verus!
