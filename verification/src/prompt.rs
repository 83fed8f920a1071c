//! The prompt's decisions: which prompt to show, when the lines typed so
//! far make a complete snippet, and what is submitted for evaluation.
//!
//! Reading lines is the caller's work; each line read is fed here, and the
//! answer says whether a snippet is ready.
use vstd::prelude::*;
use crate::lexer::{input_needs_more, needs_more, blank, law_trailing_blank_keeps_completeness};
use crate::text::{trim, trimmed, push_char, push_str, string_from_chars};

verus! {

/// The prompt shown when no snippet is pending.
pub const FIRST_PROMPT: &'static str = "-> ";

/// The prompt shown while a snippet continues.
pub const CONTINUATION_PROMPT: &'static str = ".. ";

/// The lines typed so far of an unfinished snippet.
pub struct Prompt {
    pending: String,
}

impl View for Prompt {
    type V = Seq<char>;

    closed spec fn view(&self) -> Seq<char> {
        self.pending@
    }
}

/// The pending text after `line` is typed: the line, joined to earlier
/// lines by a line feed.
pub open spec fn joined(pending: Seq<char>, line: Seq<char>) -> Seq<char> {
    if pending.len() == 0 {
        line
    } else {
        pending.push('\n') + line
    }
}

impl Prompt {
    /// No snippet pending.
    pub fn new() -> (p: Prompt)
        ensures
            p@ == Seq::<char>::empty(),
    {
        Prompt { pending: String::new() }
    }

    /// The prompt to show: `-> ` for a new snippet, `.. ` while one
    /// continues.
    pub fn prompt(&self) -> (r: &'static str)
        ensures
            r@ == if self@.len() == 0 {
                FIRST_PROMPT@
            } else {
                CONTINUATION_PROMPT@
            },
    {
        let pending = crate::text::str_chars(self.pending.as_str());
        if pending.len() == 0 {
            FIRST_PROMPT
        } else {
            CONTINUATION_PROMPT
        }
    }

    /// Adds a typed line. While the text is unfinished it stays pending and
    /// nothing is submitted; otherwise the pending text is cleared and
    /// submitted trimmed, unless it is blank.
    pub fn feed(&mut self, line: &str) -> (r: Option<String>)
        ensures
            needs_more(joined(old(self)@, line@)) ==> final(self)@ == joined(old(self)@, line@)
                && r is None,
            !needs_more(joined(old(self)@, line@)) ==> final(self)@ == Seq::<char>::empty() && match r {
                Some(s) => s@ == trim(joined(old(self)@, line@)) && s@.len() > 0,
                None => trim(joined(old(self)@, line@)).len() == 0,
            },
    {
        let old_chars = crate::text::str_chars(self.pending.as_str());
        if old_chars.len() > 0 {
            push_char(&mut self.pending, '\n');
        }
        push_str(&mut self.pending, line);
        if input_needs_more(self.pending.as_str()) {
            return None;
        }
        let snippet = trimmed(self.pending.as_str());
        self.pending = String::new();
        if snippet.len() == 0 {
            None
        } else {
            Some(string_from_chars(snippet.as_slice()))
        }
    }

    /// Discards the pending text.
    pub fn interrupt(&mut self)
        ensures
            final(self)@ == Seq::<char>::empty(),
    {
        self.pending = String::new();
    }
}

/// Typing a blank line (such as an empty one) never submits an unfinished
/// snippet: it stays pending.
pub proof fn law_blank_line_keeps_waiting(pending: Seq<char>, line: Seq<char>)
    requires
        pending.len() > 0,
        needs_more(pending),
        blank(seq!['\n'] + line),
    ensures
        needs_more(joined(pending, line)),
{
    assert(joined(pending, line) =~= pending + (seq!['\n'] + line));
    law_trailing_blank_keeps_completeness(pending, seq!['\n'] + line);
}

} // verus!
