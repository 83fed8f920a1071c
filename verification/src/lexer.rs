//! Deciding whether a snippet typed at the prompt is complete.
//!
//! A snippet needs more input while a delimiter, a string or character
//! literal, or a block comment is still open, or while its last real token is
//! an outer attribute (`#[..]`) or an outer doc comment (`///` but not
//! `////`, `/** */` but not `/*** */` or `/**/`), which must be followed by
//! the item it belongs to. After `'`, a character and a closing `'` make a
//! character literal; otherwise a letter or `_` starts a lifetime or label.
use vstd::prelude::*;
use crate::text::{is_white_space, is_whitespace, str_chars, find_from, matches_at};

verus! {

// ---------------------------------------------------------------------------
// Unicode letter classes from `std`
// ---------------------------------------------------------------------------

/// The Unicode `Alphabetic` property of `c`, as `char::is_alphabetic` reports it.
pub uninterp spec fn char_is_alphabetic(c: char) -> bool;

/// The value of `char::is_alphanumeric` on `c`.
pub uninterp spec fn char_is_alphanumeric(c: char) -> bool;

/// `char::is_alphabetic`. Its result depends on `c` alone and follows Unicode's
/// `Alphabetic` property; the property's tables are not written out here, so
/// the contract names the result instead.
#[verifier::external_body]
fn is_alphabetic(c: char) -> (r: bool)
    ensures
        r == char_is_alphabetic(c),
{
    c.is_alphabetic()
}

/// `char::is_alphanumeric`: per its documentation, `is_alphabetic` or
/// `is_numeric`. The contract names the result and states the documented
/// inclusion of the alphabetic characters; the numeric tables are not
/// written out.
#[verifier::external_body]
fn is_alphanumeric(c: char) -> (r: bool)
    ensures
        r == char_is_alphanumeric(c),
        char_is_alphabetic(c) ==> r,
{
    c.is_alphanumeric()
}

/// Whether `c` starts a lifetime or label name after `'`: a letter. On ASCII
/// characters Unicode's `Alphabetic` property holds exactly for the Latin
/// letters, which are decided here; other characters are asked of
/// `char::is_alphabetic`.
pub open spec fn is_letter(c: char) -> bool {
    ||| ('a' <= c && c <= 'z')
    ||| ('A' <= c && c <= 'Z')
    ||| ('\x7f' < c && char_is_alphabetic(c))
}

/// Whether `c` continues a lifetime or label name: a letter or a digit, as
/// `char::is_alphanumeric` reports it, decided directly on ASCII characters.
pub open spec fn is_name_char(c: char) -> bool {
    ||| ('a' <= c && c <= 'z')
    ||| ('A' <= c && c <= 'Z')
    ||| ('0' <= c && c <= '9')
    ||| ('\x7f' < c && char_is_alphanumeric(c))
}

/// Whether `c` is a letter (`char::is_alphabetic`).
fn letter(c: char) -> (r: bool)
    ensures
        r == is_letter(c),
{
    if ('a' <= c && c <= 'z') || ('A' <= c && c <= 'Z') {
        true
    } else if c <= '\x7f' {
        false
    } else {
        is_alphabetic(c)
    }
}

/// Whether `c` is a letter or a digit (`char::is_alphanumeric`).
fn name_char(c: char) -> (r: bool)
    ensures
        r == is_name_char(c),
{
    if ('a' <= c && c <= 'z') || ('A' <= c && c <= 'Z') || ('0' <= c && c <= '9') {
        true
    } else if c <= '\x7f' {
        false
    } else {
        is_alphanumeric(c)
    }
}

// ---------------------------------------------------------------------------
// The scanner, as a specification over the characters of the snippet
// ---------------------------------------------------------------------------

/// An opened literal whose body is still to be skipped.
pub enum OpenLit {
    /// A string with escapes: `"..`, `b"..`, `c"..`.
    Cooked,
    /// A raw string opened with the given number of `#`: `r#".."#`.
    Raw(usize),
    /// A character literal: `'..` or `b'..`.
    Char,
}

/// Converts an optional position to a mathematical one.
pub open spec fn pos_of(o: Option<usize>) -> Option<int> {
    match o {
        Some(p) => Some(p as int),
        None => None,
    }
}

/// Converts an optional stack depth to a mathematical one.
pub open spec fn depth_of(o: Option<usize>) -> Option<nat> {
    match o {
        Some(p) => Some(p as nat),
        None => None,
    }
}

/// The position just past the first `\n` at or after `i` (or the end).
pub open spec fn line_end(s: Seq<char>, i: int) -> int
    decreases s.len() - i,
{
    if i >= s.len() {
        s.len() as int
    } else if s[i] == '\n' {
        i + 1
    } else {
        line_end(s, i + 1)
    }
}

/// Where a block comment whose body starts at `i`, nested `depth` deep, ends.
pub open spec fn block_comment_end(s: Seq<char>, i: int, depth: nat) -> Option<int>
    decreases s.len() - i,
{
    if i >= s.len() {
        None
    } else if s[i] == '/' && i + 1 < s.len() && s[i + 1] == '*' {
        block_comment_end(s, i + 2, depth + 1)
    } else if s[i] == '*' && i + 1 < s.len() && s[i + 1] == '/' {
        if depth <= 1 {
            Some(i + 2)
        } else {
            block_comment_end(s, i + 2, (depth - 1) as nat)
        }
    } else {
        block_comment_end(s, i + 1, depth)
    }
}

/// Where a string with escapes whose body starts at `i` ends.
pub open spec fn cooked_end(s: Seq<char>, i: int) -> Option<int>
    decreases s.len() + 1 - i,
{
    if i >= s.len() {
        None
    } else if s[i] == '\\' {
        cooked_end(s, i + 2)
    } else if s[i] == '"' {
        Some(i + 1)
    } else {
        cooked_end(s, i + 1)
    }
}

/// Whether `n` characters `#` stand at `i`.
pub open spec fn hashes_at(s: Seq<char>, i: int, n: nat) -> bool {
    &&& 0 <= i
    &&& i + n <= s.len()
    &&& forall|k: int| i <= k < i + n ==> s[k] == '#'
}

/// Where a raw string closed by `"` and `hashes` characters `#` ends.
pub open spec fn raw_end(s: Seq<char>, i: int, hashes: nat) -> Option<int>
    decreases s.len() - i,
{
    if i >= s.len() {
        None
    } else if s[i] == '"' && hashes_at(s, i + 1, hashes) {
        Some(i + 1 + hashes)
    } else {
        raw_end(s, i + 1, hashes)
    }
}

/// Where the first `}` at or after `i` ends.
pub open spec fn brace_end(s: Seq<char>, i: int) -> Option<int>
    decreases s.len() - i,
{
    if i >= s.len() {
        None
    } else if s[i] == '}' {
        Some(i + 1)
    } else {
        brace_end(s, i + 1)
    }
}

/// Where an escape whose first character (after `\`) stands at `i` ends.
pub open spec fn escape_end(s: Seq<char>, i: int) -> Option<int> {
    if i >= s.len() {
        None
    } else if s[i] == 'u' && i + 1 < s.len() && s[i + 1] == '{' {
        brace_end(s, i + 2)
    } else {
        Some(i + 1)
    }
}

/// Where a character literal whose body starts at `i` ends, if it is closed.
pub open spec fn char_lit_end(s: Seq<char>, i: int) -> Option<int> {
    if i >= s.len() {
        None
    } else {
        let body = if s[i] == '\\' {
            escape_end(s, i + 1)
        } else {
            Some(i + 1)
        };
        match body {
            None => None,
            Some(j) => if j < s.len() && s[j] == '\'' {
                Some(j + 1)
            } else {
                None
            },
        }
    }
}

/// The number of consecutive `#` starting at `i`.
pub open spec fn hash_run(s: Seq<char>, i: int) -> nat
    decreases s.len() - i,
{
    if 0 <= i < s.len() && s[i] == '#' {
        1 + hash_run(s, i + 1)
    } else {
        0
    }
}

/// A raw string opener at `i` (`#`s then `"`): where its body starts and how
/// many `#` it has.
pub open spec fn raw_open(s: Seq<char>, i: int) -> Option<(int, nat)> {
    let h = hash_run(s, i);
    if i + h < s.len() && s[i + h] == '"' {
        Some((i + h + 1, h))
    } else {
        None
    }
}

/// The literal, if any, that the prefix character `first` opens when the
/// text after it starts at `i`, and where scanning resumes.
pub open spec fn prefixed_literal(first: char, s: Seq<char>, i: int) -> (Option<OpenLit>, int) {
    if first == 'b' && i < s.len() && s[i] == '\'' {
        (Some(OpenLit::Char), i + 1)
    } else if first == 'b' || first == 'c' {
        if i < s.len() && s[i] == '"' {
            (Some(OpenLit::Cooked), i + 1)
        } else if i < s.len() && s[i] == 'r' {
            match raw_open(s, i + 1) {
                Some((j, h)) => (Some(OpenLit::Raw(h as usize)), j),
                None => (None, i + 1),
            }
        } else {
            (None, i)
        }
    } else if first == 'r' {
        match raw_open(s, i) {
            Some((j, h)) => (Some(OpenLit::Raw(h as usize)), j),
            None => (None, i),
        }
    } else {
        (None, i)
    }
}

/// Where the body of the literal `lit`, starting at `i`, ends.
pub open spec fn literal_end(lit: OpenLit, s: Seq<char>, i: int) -> Option<int> {
    match lit {
        OpenLit::Cooked => cooked_end(s, i),
        OpenLit::Raw(h) => raw_end(s, i, h as nat),
        OpenLit::Char => char_lit_end(s, i),
    }
}

/// The end of the lifetime or label name that starts at `i`.
pub open spec fn ident_end(s: Seq<char>, i: int) -> int
    decreases s.len() - i,
{
    if 0 <= i < s.len() && (s[i] == '_' || is_name_char(s[i])) {
        ident_end(s, i + 1)
    } else {
        i
    }
}

/// An outer attribute opened at delimiter depth `depth` is closed by a token
/// at that same depth.
pub open spec fn finish(outer: Option<nat>, depth: nat) -> Option<nat> {
    if outer == Some(depth) {
        None
    } else {
        outer
    }
}

/// The opening delimiter that `c` closes.
pub open spec fn opener_of(c: char) -> char {
    if c == ')' {
        '('
    } else if c == ']' {
        '['
    } else {
        '{'
    }
}

/// The end of a line comment lies between its start and the end of the text,
/// past the start when there is text left.
pub proof fn lemma_line_end(s: Seq<char>, i: int)
    requires
        i <= s.len(),
    ensures
        i <= line_end(s, i) <= s.len(),
        i < s.len() ==> i < line_end(s, i),
    decreases s.len() - i,
{
    if i < s.len() && s[i] != '\n' {
        lemma_line_end(s, i + 1);
    }
}

/// A closed block comment ends past its start, within the text.
pub proof fn lemma_block_comment_end(s: Seq<char>, i: int, depth: nat)
    ensures
        block_comment_end(s, i, depth) matches Some(k) ==> i < k <= s.len(),
    decreases s.len() - i,
{
    if i >= s.len() {
    } else if s[i] == '/' && i + 1 < s.len() && s[i + 1] == '*' {
        lemma_block_comment_end(s, i + 2, depth + 1);
    } else if s[i] == '*' && i + 1 < s.len() && s[i + 1] == '/' {
        if depth > 1 {
            lemma_block_comment_end(s, i + 2, (depth - 1) as nat);
        }
    } else {
        lemma_block_comment_end(s, i + 1, depth);
    }
}

/// A closed string ends past its start, within the text.
pub proof fn lemma_cooked_end(s: Seq<char>, i: int)
    ensures
        cooked_end(s, i) matches Some(k) ==> i < k <= s.len(),
    decreases s.len() + 1 - i,
{
    if i >= s.len() {
    } else if s[i] == '\\' {
        lemma_cooked_end(s, i + 2);
    } else if s[i] != '"' {
        lemma_cooked_end(s, i + 1);
    }
}

/// A closed raw string ends past its start, within the text.
pub proof fn lemma_raw_end(s: Seq<char>, i: int, h: nat)
    ensures
        raw_end(s, i, h) matches Some(k) ==> i < k <= s.len(),
    decreases s.len() - i,
{
    if i < s.len() && !(s[i] == '"' && hashes_at(s, i + 1, h)) {
        lemma_raw_end(s, i + 1, h);
    }
}

/// A closed `\u{..}` escape ends past its start, within the text.
pub proof fn lemma_brace_end(s: Seq<char>, i: int)
    ensures
        brace_end(s, i) matches Some(k) ==> i < k <= s.len(),
    decreases s.len() - i,
{
    if i < s.len() && s[i] != '}' {
        lemma_brace_end(s, i + 1);
    }
}

/// A closed character literal ends past its start, within the text.
pub proof fn lemma_char_lit_end(s: Seq<char>, i: int)
    ensures
        char_lit_end(s, i) matches Some(k) ==> i < k <= s.len(),
{
    if i < s.len() && s[i] == '\\' && i + 2 < s.len() && s[i + 1] == 'u' && s[i + 2] == '{' {
        lemma_brace_end(s, i + 3);
    }
}

/// A run of `#` lies within the text and holds only `#`.
pub proof fn lemma_hash_run(s: Seq<char>, i: int)
    requires
        0 <= i,
    ensures
        i + hash_run(s, i) <= s.len() || hash_run(s, i) == 0,
        forall|k: int| i <= k < i + hash_run(s, i) ==> s[k] == '#',
    decreases s.len() - i,
{
    if 0 <= i < s.len() && s[i] == '#' {
        lemma_hash_run(s, i + 1);
    }
}

/// A literal prefix ends within the text, not before its start.
pub proof fn lemma_prefixed_literal(first: char, s: Seq<char>, i: int)
    requires
        0 <= i <= s.len(),
    ensures
        i <= prefixed_literal(first, s, i).1 <= s.len(),
{
    lemma_hash_run(s, i);
    lemma_hash_run(s, i + 1);
}

/// A closed literal ends past its start, within the text.
pub proof fn lemma_literal_end(lit: OpenLit, s: Seq<char>, i: int)
    ensures
        literal_end(lit, s, i) matches Some(k) ==> i < k <= s.len(),
{
    match lit {
        OpenLit::Cooked => lemma_cooked_end(s, i),
        OpenLit::Raw(h) => lemma_raw_end(s, i, h as nat),
        OpenLit::Char => lemma_char_lit_end(s, i),
    }
}

/// An identifier ends within the text, not before its start.
pub proof fn lemma_ident_end(s: Seq<char>, i: int)
    requires
        0 <= i <= s.len(),
    ensures
        i <= ident_end(s, i) <= s.len(),
    decreases s.len() - i,
{
    if 0 <= i < s.len() && (s[i] == '_' || is_name_char(s[i])) {
        lemma_ident_end(s, i + 1);
    }
}

/// Whether the snippet `s` needs more input, scanning from position `i` with
/// the open delimiters `stack`, whether the previous character was a `#`
/// directly followed by `[`, and the delimiter depth of a pending outer
/// attribute or outer doc comment.
pub open spec fn needs_more_from(
    s: Seq<char>,
    i: int,
    stack: Seq<char>,
    saw_hash: bool,
    outer: Option<nat>,
) -> bool
    decreases s.len() - i,
{
    if i < 0 || i >= s.len() {
        stack.len() > 0 || outer is Some
    } else {
        let c = s[i];
        let n = stack.len();
        if c == '/' && i + 1 < s.len() && s[i + 1] == '/' {
            let doc = i + 2 < s.len() && s[i + 2] == '/' && !(i + 3 < s.len() && s[i + 3] == '/');
            proof {
                lemma_line_end(s, i + 2);
            }
            needs_more_from(
                s,
                line_end(s, i + 2),
                stack,
                false,
                if doc {
                    Some(n)
                } else {
                    outer
                },
            )
        } else if c == '/' && i + 1 < s.len() && s[i + 1] == '*' {
            let doc = i + 2 < s.len() && s[i + 2] == '*' && !(i + 3 < s.len() && (s[i + 3]
                == '*' || s[i + 3] == '/'));
            proof {
                lemma_block_comment_end(s, i + 2, 1);
            }
            match block_comment_end(s, i + 2, 1) {
                None => true,
                Some(j) => needs_more_from(
                    s,
                    j,
                    stack,
                    false,
                    if doc {
                        Some(n)
                    } else {
                        outer
                    },
                ),
            }
        } else if c == '"' {
            proof {
                lemma_cooked_end(s, i + 1);
            }
            match cooked_end(s, i + 1) {
                None => true,
                Some(j) => needs_more_from(s, j, stack, false, finish(outer, n)),
            }
        } else if c == 'b' || c == 'c' || c == 'r' {
            let (lit, j) = prefixed_literal(c, s, i + 1);
            proof {
                lemma_prefixed_literal(c, s, i + 1);
            }
            match lit {
                None => needs_more_from(s, j, stack, false, finish(outer, n)),
                Some(l) => {
                    proof {
                        lemma_literal_end(l, s, j);
                    }
                    match literal_end(l, s, j) {
                        None => true,
                        Some(k) => needs_more_from(s, k, stack, false, finish(outer, n)),
                    }
                },
            }
        } else if c == '\'' {
            if i + 1 < s.len() && (s[i + 1] == '_' || is_letter(s[i + 1])) && !(i + 2 < s.len()
                && s[i + 2] == '\'') {
                proof {
                    lemma_ident_end(s, i + 1);
                }
                needs_more_from(s, ident_end(s, i + 1), stack, false, finish(outer, n))
            } else {
                proof {
                    lemma_char_lit_end(s, i + 1);
                }
                match char_lit_end(s, i + 1) {
                    None => true,
                    Some(k) => needs_more_from(s, k, stack, false, finish(outer, n)),
                }
            }
        } else if c == '#' {
            if i + 1 < s.len() && s[i + 1] == '[' {
                needs_more_from(s, i + 1, stack, true, Some(n))
            } else {
                needs_more_from(s, i + 1, stack, false, finish(outer, n))
            }
        } else if c == '(' || c == '[' || c == '{' {
            let opens_outer_attr = c == '[' && saw_hash;
            needs_more_from(
                s,
                i + 1,
                stack.push(c),
                false,
                if opens_outer_attr {
                    outer
                } else {
                    finish(outer, n)
                },
            )
        } else if c == ')' || c == ']' || c == '}' {
            if n == 0 || stack.last() != opener_of(c) {
                false
            } else {
                needs_more_from(s, i + 1, stack.drop_last(), false, outer)
            }
        } else {
            needs_more_from(
                s,
                i + 1,
                stack,
                false,
                if is_white_space(c) {
                    outer
                } else {
                    finish(outer, n)
                },
            )
        }
    }
}

/// Whether the snippet `s` is unfinished.
pub open spec fn needs_more(s: Seq<char>) -> bool {
    needs_more_from(s, 0, Seq::empty(), false, None)
}


// ---------------------------------------------------------------------------
// The scanner
// ---------------------------------------------------------------------------

/// Clears a pending outer attribute opened at depth `stack_len`.
pub fn finish_outer_attr(depth: &mut Option<usize>, stack_len: usize)
    ensures
        depth_of(*final(depth)) == finish(depth_of(*old(depth)), stack_len as nat),
{
    if *depth == Some(stack_len) {
        *depth = None;
    }
}

/// Skips the rest of a line comment whose text starts at `pos`, through the
/// newline.
fn skip_line(chars: &Vec<char>, pos: usize) -> (r: usize)
    requires
        pos <= chars@.len(),
    ensures
        r as int == line_end(chars@, pos as int),
{
    let mut i = pos;
    while i < chars.len()
        invariant
            pos <= i <= chars@.len(),
            line_end(chars@, i as int) == line_end(chars@, pos as int),
        decreases chars@.len() - i,
    {
        if chars[i] == '\n' {
            return i + 1;
        }
        i = i + 1;
    }
    i
}

/// Skips a (possibly nested) block comment whose body starts at `pos`;
/// `None` when the input ends first.
pub fn skip_block_comment(chars: &Vec<char>, pos: usize) -> (r: Option<usize>)
    ensures
        pos_of(r) == block_comment_end(chars@, pos as int, 1),
{
    let mut depth: usize = 1;
    let mut i = pos;
    while i < chars.len()
        invariant
            pos <= i,
            1 <= depth <= i - pos + 1,
            block_comment_end(chars@, i as int, depth as nat) == block_comment_end(
                chars@,
                pos as int,
                1,
            ),
        decreases chars@.len() - i,
    {
        let c = chars[i];
        if c == '/' && i + 1 < chars.len() && chars[i + 1] == '*' {
            depth = depth + 1;
            i = i + 2;
        } else if c == '*' && i + 1 < chars.len() && chars[i + 1] == '/' {
            if depth == 1 {
                return Some(i + 2);
            }
            depth = depth - 1;
            i = i + 2;
        } else {
            i = i + 1;
        }
    }
    None
}

/// Skips the body of a string with escapes starting at `pos`, through the
/// closing quote; `None` when the input ends first.
pub fn skip_cooked_string(chars: &Vec<char>, pos: usize) -> (r: Option<usize>)
    ensures
        pos_of(r) == cooked_end(chars@, pos as int),
{
    let mut i = pos;
    while i < chars.len()
        invariant
            pos <= i,
            cooked_end(chars@, i as int) == cooked_end(chars@, pos as int),
        decreases chars@.len() - i,
    {
        let c = chars[i];
        if c == '\\' {
            if i + 1 >= chars.len() {
                assert(cooked_end(chars@, i + 2) is None);
                return None;
            }
            i = i + 2;
        } else if c == '"' {
            return Some(i + 1);
        } else {
            i = i + 1;
        }
    }
    None
}

/// Whether `n` characters `#` stand at `from`.
fn hashes_follow(chars: &Vec<char>, from: usize, n: usize) -> (r: bool)
    ensures
        r == hashes_at(chars@, from as int, n as nat),
{
    if from > chars.len() || n > chars.len() - from {
        return false;
    }
    let mut k: usize = 0;
    while k < n
        invariant
            k <= n,
            from + n <= chars@.len() <= usize::MAX,
            forall|j: int| from <= j < from + k ==> chars@[j] == '#',
        decreases n - k,
    {
        if chars[from + k] != '#' {
            return false;
        }
        k = k + 1;
    }
    true
}

/// Skips the body of a raw string closed by `"` and `hashes` characters `#`;
/// `None` when the input ends first.
pub fn skip_raw_string(chars: &Vec<char>, pos: usize, hashes: usize) -> (r: Option<usize>)
    ensures
        pos_of(r) == raw_end(chars@, pos as int, hashes as nat),
{
    let mut i = pos;
    while i < chars.len()
        invariant
            pos <= i,
            raw_end(chars@, i as int, hashes as nat) == raw_end(chars@, pos as int, hashes as nat),
        decreases chars@.len() - i,
    {
        if chars[i] == '"' && hashes_follow(chars, i + 1, hashes) {
            return Some(i + 1 + hashes);
        }
        i = i + 1;
    }
    None
}

/// Opens a raw string at `pos` (`#`s then `"`): where its body starts and how
/// many `#` it has. Nothing is consumed when no raw string opens there.
pub fn take_raw(chars: &Vec<char>, pos: usize) -> (r: Option<(usize, usize)>)
    requires
        pos <= chars@.len(),
    ensures
        match r {
            Some((j, h)) => raw_open(chars@, pos as int) == Some((j as int, h as nat)),
            None => raw_open(chars@, pos as int) is None,
        },
{
    let len = chars.len();
    let mut h: usize = 0;
    while pos + h < len && chars[pos + h] == '#'
        invariant
            len == chars@.len(),
            pos + h <= len,
            hash_run(chars@, pos as int) == h + hash_run(chars@, pos + h),
        decreases chars@.len() - (pos + h),
    {
        h = h + 1;
    }
    if pos + h < chars.len() && chars[pos + h] == '"' {
        Some((pos + h + 1, h))
    } else {
        None
    }
}

/// The literal, if any, that the prefix character `first` opens when the
/// text after it starts at `pos`, and where scanning resumes.
pub fn take_prefixed_literal(first: char, chars: &Vec<char>, pos: usize) -> (r: (
    Option<OpenLit>,
    usize,
))
    requires
        pos <= chars@.len(),
    ensures
        (r.0, r.1 as int) == prefixed_literal(first, chars@, pos as int),
{
    if first == 'b' && pos < chars.len() && chars[pos] == '\'' {
        (Some(OpenLit::Char), pos + 1)
    } else if first == 'b' || first == 'c' {
        if pos < chars.len() && chars[pos] == '"' {
            (Some(OpenLit::Cooked), pos + 1)
        } else if pos < chars.len() && chars[pos] == 'r' {
            match take_raw(chars, pos + 1) {
                Some((j, h)) => (Some(OpenLit::Raw(h)), j),
                None => (None, pos + 1),
            }
        } else {
            (None, pos)
        }
    } else if first == 'r' {
        match take_raw(chars, pos) {
            Some((j, h)) => (Some(OpenLit::Raw(h)), j),
            None => (None, pos),
        }
    } else {
        (None, pos)
    }
}

/// Skips an escape whose first character (after `\`) stands at `pos`.
pub fn consume_escape(chars: &Vec<char>, pos: usize) -> (r: Option<usize>)
    ensures
        pos_of(r) == escape_end(chars@, pos as int),
{
    if pos >= chars.len() {
        return None;
    }
    if chars[pos] == 'u' && pos + 1 < chars.len() && chars[pos + 1] == '{' {
        let mut i = pos + 2;
        while i < chars.len()
            invariant
                pos + 2 <= i,
                escape_end(chars@, pos as int) == brace_end(chars@, pos + 2),
                brace_end(chars@, i as int) == brace_end(chars@, pos + 2),
            decreases chars@.len() - i,
        {
            if chars[i] == '}' {
                return Some(i + 1);
            }
            i = i + 1;
        }
        None
    } else {
        Some(pos + 1)
    }
}

/// Skips the body of a character literal starting at `pos`, through the
/// closing quote; `None` when it is not closed.
pub fn consume_char_literal(chars: &Vec<char>, pos: usize) -> (r: Option<usize>)
    ensures
        pos_of(r) == char_lit_end(chars@, pos as int),
{
    if pos >= chars.len() {
        return None;
    }
    let j = if chars[pos] == '\\' {
        match consume_escape(chars, pos + 1) {
            Some(j) => j,
            None => return None,
        }
    } else {
        pos + 1
    };
    if j < chars.len() && chars[j] == '\'' {
        Some(j + 1)
    } else {
        None
    }
}

/// Skips the rest of a lifetime or label name starting at `pos`.
fn skip_ident(chars: &Vec<char>, pos: usize) -> (r: usize)
    requires
        pos <= chars@.len(),
    ensures
        r as int == ident_end(chars@, pos as int),
{
    let mut i = pos;
    while i < chars.len() && (chars[i] == '_' || name_char(chars[i]))
        invariant
            pos <= i <= chars@.len(),
            ident_end(chars@, i as int) == ident_end(chars@, pos as int),
        decreases chars@.len() - i,
    {
        i = i + 1;
    }
    i
}

/// Skips the body of the literal `lit` starting at `pos`.
fn skip_literal(lit: OpenLit, chars: &Vec<char>, pos: usize) -> (r: Option<usize>)
    ensures
        pos_of(r) == literal_end(lit, chars@, pos as int),
{
    match lit {
        OpenLit::Cooked => skip_cooked_string(chars, pos),
        OpenLit::Raw(hashes) => skip_raw_string(chars, pos, hashes),
        OpenLit::Char => consume_char_literal(chars, pos),
    }
}

/// Whether the snippet typed so far is unfinished: a delimiter, string,
/// character literal or block comment is still open, or the last real token
/// is an outer attribute or an outer doc comment. A closing delimiter that
/// does not match the innermost open one ends the wait at once.
pub fn input_needs_more(src: &str) -> (r: bool)
    ensures
        r == needs_more(src@),
{
    let chars = str_chars(src);
    let ghost s = chars@;
    let mut stack: Vec<char> = Vec::new();
    let mut saw_hash = false;
    let mut outer_attr_depth: Option<usize> = None;
    let mut i: usize = 0;
    while i < chars.len()
        invariant
            s == chars@,
            s == src@,
            i <= s.len(),
            needs_more_from(s, i as int, stack@, saw_hash, depth_of(outer_attr_depth))
                == needs_more(s),
        decreases s.len() - i,
    {
        let c = chars[i];
        let n = stack.len();
        if c == '/' && i + 1 < chars.len() && chars[i + 1] == '/' {
            let outer_doc = i + 2 < chars.len() && chars[i + 2] == '/' && !(i + 3 < chars.len()
                && chars[i + 3] == '/');
            proof {
                lemma_line_end(s, i + 2);
            }
            i = skip_line(&chars, i + 2);
            if outer_doc {
                outer_attr_depth = Some(n);
            }
            saw_hash = false;
        } else if c == '/' && i + 1 < chars.len() && chars[i + 1] == '*' {
            let outer_doc = i + 2 < chars.len() && chars[i + 2] == '*' && !(i + 3 < chars.len()
                && (chars[i + 3] == '*' || chars[i + 3] == '/'));
            match skip_block_comment(&chars, i + 2) {
                None => return true,
                Some(j) => {
                    proof {
                        lemma_block_comment_end(s, i + 2, 1);
                    }
                    i = j;
                },
            }
            if outer_doc {
                outer_attr_depth = Some(n);
            }
            saw_hash = false;
        } else if c == '"' {
            finish_outer_attr(&mut outer_attr_depth, n);
            saw_hash = false;
            match skip_cooked_string(&chars, i + 1) {
                None => return true,
                Some(j) => {
                    proof {
                        lemma_cooked_end(s, i + 1);
                    }
                    i = j;
                },
            }
        } else if c == 'b' || c == 'c' || c == 'r' {
            finish_outer_attr(&mut outer_attr_depth, n);
            saw_hash = false;
            let (lit, j) = take_prefixed_literal(c, &chars, i + 1);
            proof {
                lemma_prefixed_literal(c, s, i + 1);
            }
            match lit {
                None => {
                    i = j;
                },
                Some(l) => {
                    let ghost lg = l;
                    match skip_literal(l, &chars, j) {
                        None => return true,
                        Some(k) => {
                            proof {
                                lemma_literal_end(lg, s, j as int);
                            }
                            i = k;
                        },
                    }
                },
            }
        } else if c == '\'' {
            finish_outer_attr(&mut outer_attr_depth, n);
            saw_hash = false;
            if i + 1 < chars.len() && (chars[i + 1] == '_' || letter(chars[i + 1])) && !(i + 2
                < chars.len() && chars[i + 2] == '\'') {
                proof {
                    lemma_ident_end(s, i + 1);
                }
                i = skip_ident(&chars, i + 1);
            } else {
                match consume_char_literal(&chars, i + 1) {
                    None => return true,
                    Some(k) => {
                        proof {
                            lemma_char_lit_end(s, i + 1);
                        }
                        i = k;
                    },
                }
            }
        } else if c == '#' {
            if i + 1 < chars.len() && chars[i + 1] == '[' {
                saw_hash = true;
                outer_attr_depth = Some(n);
            } else {
                saw_hash = false;
                finish_outer_attr(&mut outer_attr_depth, n);
            }
            i = i + 1;
        } else if c == '(' || c == '[' || c == '{' {
            let opens_outer_attr = c == '[' && saw_hash;
            saw_hash = false;
            if !opens_outer_attr {
                finish_outer_attr(&mut outer_attr_depth, n);
            }
            stack.push(c);
            i = i + 1;
        } else if c == ')' || c == ']' || c == '}' {
            saw_hash = false;
            let expected = if c == ')' {
                '('
            } else if c == ']' {
                '['
            } else {
                '{'
            };
            if n == 0 || stack[n - 1] != expected {
                return false;
            }
            stack.pop();
            i = i + 1;
        } else {
            saw_hash = false;
            if !is_whitespace(c) {
                finish_outer_attr(&mut outer_attr_depth, n);
            }
            i = i + 1;
        }
    }
    stack.len() > 0 || outer_attr_depth.is_some()
}


// ---------------------------------------------------------------------------
// Law: trailing blank text does not change whether a snippet is complete
// ---------------------------------------------------------------------------

/// Text made only of whitespace that is not a letter. Every ASCII
/// whitespace character qualifies; for the others Unicode defines no
/// alphabetic whitespace, but the letter class is named, not written out.
pub open spec fn blank(w: Seq<char>) -> bool {
    forall|k: int| 0 <= k < w.len() ==> is_white_space(#[trigger] w[k]) && !is_letter(w[k])
}

/// White space is none of the characters the scanner treats specially, but
/// for a line feed.
proof fn lemma_white_space_is_plain(c: char)
    requires
        is_white_space(c),
    ensures
        c != '/' && c != '*' && c != '"' && c != '\\' && c != '#' && c != '\'' && c != '{'
            && c != '}' && c != '(' && c != ')' && c != '[' && c != ']' && c != 'u' && c != 'b'
            && c != 'c' && c != 'r' && c != '_' && c != '\n' || c == '\n',
{
}

/// Past the end of `s`, only blank text is left: the answer is whether a
/// delimiter or an outer attribute is still open.
proof fn lemma_blank_tail(
    s: Seq<char>,
    w: Seq<char>,
    i: int,
    stack: Seq<char>,
    saw_hash: bool,
    outer: Option<nat>,
)
    requires
        blank(w),
        i >= s.len(),
    ensures
        needs_more_from(s + w, i, stack, saw_hash, outer) == (stack.len() > 0 || outer is Some),
    decreases (s + w).len() - i,
{
    let t = s + w;
    if i < t.len() {
        let c = t[i];
        assert(c == w[i - s.len()]);
        assert(is_white_space(c));
        lemma_white_space_is_plain(c);
        lemma_blank_tail(s, w, i + 1, stack, false, outer);
    }
}

/// Past `s`, `s + w` holds only blank characters; before, it holds `s`.
proof fn lemma_blank_tail_chars(s: Seq<char>, w: Seq<char>)
    requires
        blank(w),
    ensures
        forall|k: int| s.len() <= k < (s + w).len() ==> is_white_space(#[trigger] (s + w)[k])
            && !is_letter((s + w)[k]),
        forall|k: int| 0 <= k < s.len() ==> #[trigger] (s + w)[k] == s[k],
{
    assert forall|k: int| s.len() <= k < (s + w).len() implies is_white_space(
        #[trigger] (s + w)[k],
    ) && !is_letter((s + w)[k]) by {
        assert((s + w)[k] == w[k - s.len()]);
    }
}

/// Blank text after `s` moves a line comment's end only when the comment ran
/// to the end of `s`.
proof fn lemma_line_end_ext(s: Seq<char>, w: Seq<char>, j: int)
    requires
        blank(w),
        0 <= j <= s.len(),
    ensures
        line_end(s + w, j) == line_end(s, j) || (line_end(s, j) == s.len() && line_end(s + w, j)
            >= s.len()),
    decreases s.len() - j,
{
    lemma_blank_tail_chars(s, w);
    lemma_line_end(s + w, j);
    if j < s.len() && s[j] != '\n' {
        lemma_line_end_ext(s, w, j + 1);
    }
}

/// Blank text after `s` does not change where a block comment ends.
proof fn lemma_block_comment_end_ext(s: Seq<char>, w: Seq<char>, j: int, depth: nat)
    requires
        blank(w),
        0 <= j,
    ensures
        block_comment_end(s + w, j, depth) == block_comment_end(s, j, depth),
    decreases (s + w).len() - j,
{
    let t = s + w;
    lemma_blank_tail_chars(s, w);
    if j < t.len() {
        if j >= s.len() {
            lemma_white_space_is_plain(t[j]);
            lemma_block_comment_end_ext(s, w, j + 1, depth);
        } else {
            if j + 1 < t.len() {
                if j + 1 >= s.len() {
                    lemma_white_space_is_plain(t[j + 1]);
                }
            }
            if t[j] == '/' && j + 1 < t.len() && t[j + 1] == '*' {
                lemma_block_comment_end_ext(s, w, j + 2, depth + 1);
            } else if t[j] == '*' && j + 1 < t.len() && t[j + 1] == '/' {
                if depth > 1 {
                    lemma_block_comment_end_ext(s, w, j + 2, (depth - 1) as nat);
                }
            } else {
                lemma_block_comment_end_ext(s, w, j + 1, depth);
            }
        }
    }
}

/// Blank text after `s` does not change where a string ends.
proof fn lemma_cooked_end_ext(s: Seq<char>, w: Seq<char>, j: int)
    requires
        blank(w),
        0 <= j,
    ensures
        cooked_end(s + w, j) == cooked_end(s, j),
    decreases (s + w).len() + 1 - j,
{
    let t = s + w;
    lemma_blank_tail_chars(s, w);
    if j < t.len() {
        if j >= s.len() {
            lemma_white_space_is_plain(t[j]);
            lemma_cooked_end_ext(s, w, j + 1);
        } else if t[j] == '\\' {
            lemma_cooked_end_ext(s, w, j + 2);
        } else if t[j] != '"' {
            lemma_cooked_end_ext(s, w, j + 1);
        }
    }
}

/// Blank text after `s` does not change whether `#`s follow a position.
proof fn lemma_hashes_at_ext(s: Seq<char>, w: Seq<char>, j: int, h: nat)
    requires
        blank(w),
        0 <= j <= s.len(),
    ensures
        hashes_at(s + w, j, h) == hashes_at(s, j, h),
{
    let t = s + w;
    lemma_blank_tail_chars(s, w);
    if hashes_at(t, j, h) && !hashes_at(s, j, h) {
        if j + h <= s.len() {
            assert forall|k: int| j <= k < j + h implies s[k] == '#' by {
                assert(t[k] == s[k]);
            }
        } else {
            let k = s.len() as int;
            lemma_white_space_is_plain(t[k]);
            assert(t[k] == '#');
        }
    }
    if hashes_at(s, j, h) {
        assert forall|k: int| j <= k < j + h implies t[k] == '#' by {
            assert(t[k] == s[k]);
        }
    }
}

/// Blank text after `s` does not change where a raw string ends.
proof fn lemma_raw_end_ext(s: Seq<char>, w: Seq<char>, j: int, h: nat)
    requires
        blank(w),
        0 <= j,
    ensures
        raw_end(s + w, j, h) == raw_end(s, j, h),
    decreases (s + w).len() - j,
{
    let t = s + w;
    lemma_blank_tail_chars(s, w);
    if j < t.len() {
        if j < s.len() {
            lemma_hashes_at_ext(s, w, j + 1, h);
        }
        if j >= s.len() {
            lemma_white_space_is_plain(t[j]);
        }
        lemma_raw_end_ext(s, w, j + 1, h);
    }
}

/// Blank text after `s` does not change where a `\u{..}` escape ends.
proof fn lemma_brace_end_ext(s: Seq<char>, w: Seq<char>, j: int)
    requires
        blank(w),
        0 <= j,
    ensures
        brace_end(s + w, j) == brace_end(s, j),
    decreases (s + w).len() - j,
{
    let t = s + w;
    lemma_blank_tail_chars(s, w);
    if j < t.len() {
        if j >= s.len() {
            lemma_white_space_is_plain(t[j]);
        }
        lemma_brace_end_ext(s, w, j + 1);
    }
}

/// Blank text after `s` does not change where a character literal ends.
proof fn lemma_char_lit_end_ext(s: Seq<char>, w: Seq<char>, j: int)
    requires
        blank(w),
        0 <= j <= s.len(),
    ensures
        char_lit_end(s + w, j) == char_lit_end(s, j),
{
    let t = s + w;
    lemma_blank_tail_chars(s, w);
    let n = s.len() as int;
    if n < t.len() {
        lemma_white_space_is_plain(t[n]);
    }
    if n + 1 < t.len() {
        lemma_white_space_is_plain(t[n + 1]);
    }
    if j + 1 < t.len() && j + 1 >= n {
        lemma_white_space_is_plain(t[j + 1]);
    }
    if j + 2 < t.len() && j + 2 >= n {
        lemma_white_space_is_plain(t[j + 2]);
    }
    lemma_brace_end_ext(s, w, j + 3);
    lemma_brace_end(s, j + 3);
}

/// Blank text after `s` does not change a run of `#`.
proof fn lemma_hash_run_ext(s: Seq<char>, w: Seq<char>, j: int)
    requires
        blank(w),
        0 <= j,
    ensures
        hash_run(s + w, j) == hash_run(s, j),
    decreases (s + w).len() - j,
{
    let t = s + w;
    lemma_blank_tail_chars(s, w);
    if j < t.len() {
        if j >= s.len() {
            lemma_white_space_is_plain(t[j]);
        }
        lemma_hash_run_ext(s, w, j + 1);
    }
}

/// Blank text after `s` does not change how a raw string opens.
proof fn lemma_raw_open_ext(s: Seq<char>, w: Seq<char>, j: int)
    requires
        blank(w),
        0 <= j <= s.len(),
    ensures
        raw_open(s + w, j) == raw_open(s, j),
{
    let t = s + w;
    lemma_blank_tail_chars(s, w);
    lemma_hash_run_ext(s, w, j);
    lemma_hash_run(s, j);
    let h = hash_run(s, j);
    if j + h < t.len() && j + h >= s.len() {
        lemma_white_space_is_plain(t[j + h]);
    }
}

/// Blank text after `s` does not change how a prefixed literal opens.
proof fn lemma_prefixed_literal_ext(first: char, s: Seq<char>, w: Seq<char>, j: int)
    requires
        blank(w),
        0 <= j <= s.len(),
    ensures
        prefixed_literal(first, s + w, j) == prefixed_literal(first, s, j),
{
    let t = s + w;
    lemma_blank_tail_chars(s, w);
    if j < t.len() && j >= s.len() {
        lemma_white_space_is_plain(t[j]);
    }
    lemma_raw_open_ext(s, w, j);
    if j < s.len() {
        lemma_raw_open_ext(s, w, j + 1);
    }
}

/// Blank text after `s` does not change where a literal ends.
proof fn lemma_literal_end_ext(lit: OpenLit, s: Seq<char>, w: Seq<char>, j: int)
    requires
        blank(w),
        0 <= j <= s.len(),
    ensures
        literal_end(lit, s + w, j) == literal_end(lit, s, j),
{
    match lit {
        OpenLit::Cooked => lemma_cooked_end_ext(s, w, j),
        OpenLit::Raw(h) => lemma_raw_end_ext(s, w, j, h as nat),
        OpenLit::Char => lemma_char_lit_end_ext(s, w, j),
    }
}

/// Blank text after `s` moves an identifier's end only when the identifier
/// ran to the end of `s`.
proof fn lemma_ident_end_ext(s: Seq<char>, w: Seq<char>, j: int)
    requires
        blank(w),
        0 <= j <= s.len(),
    ensures
        ident_end(s + w, j) == ident_end(s, j) || (ident_end(s, j) == s.len() && ident_end(
            s + w,
            j,
        ) >= s.len()),
    decreases s.len() - j,
{
    let t = s + w;
    lemma_blank_tail_chars(s, w);
    lemma_ident_end(t, j);
    if j < s.len() && (s[j] == '_' || is_name_char(s[j])) {
        lemma_ident_end_ext(s, w, j + 1);
    }
}

/// The scan of `s + w` from a position within `s` gives the scan of `s`.
proof fn lemma_scan_ext(
    s: Seq<char>,
    w: Seq<char>,
    i: int,
    stack: Seq<char>,
    saw_hash: bool,
    outer: Option<nat>,
)
    requires
        blank(w),
        0 <= i <= s.len(),
    ensures
        needs_more_from(s + w, i, stack, saw_hash, outer) == needs_more_from(
            s,
            i,
            stack,
            saw_hash,
            outer,
        ),
    decreases s.len() - i,
{
    let t = s + w;
    lemma_blank_tail_chars(s, w);
    if i == s.len() {
        lemma_blank_tail(s, w, i, stack, saw_hash, outer);
        return;
    }
    let c = s[i];
    let n = stack.len();
    let len = s.len() as int;
    if len < t.len() {
        lemma_white_space_is_plain(t[len]);
    }
    if i + 1 < t.len() && i + 1 >= len {
        lemma_white_space_is_plain(t[i + 1]);
    }
    if i + 2 < t.len() && i + 2 >= len {
        lemma_white_space_is_plain(t[i + 2]);
    }
    if i + 3 < t.len() && i + 3 >= len {
        lemma_white_space_is_plain(t[i + 3]);
    }
    if c == '/' && i + 1 < s.len() && s[i + 1] == '/' {
        let doc = i + 2 < s.len() && s[i + 2] == '/' && !(i + 3 < s.len() && s[i + 3] == '/');
        let o2 = if doc {
            Some(n)
        } else {
            outer
        };
        lemma_line_end_ext(s, w, i + 2);
        lemma_line_end(s, i + 2);
        let ls = line_end(s, i + 2);
        let lt = line_end(t, i + 2);
        if lt == ls {
            lemma_scan_ext(s, w, ls, stack, false, o2);
        } else {
            lemma_blank_tail(s, w, lt, stack, false, o2);
            assert(needs_more_from(s, ls, stack, false, o2) == (stack.len() > 0 || o2 is Some));
        }
    } else if c == '/' && i + 1 < s.len() && s[i + 1] == '*' {
        lemma_block_comment_end_ext(s, w, i + 2, 1);
        lemma_block_comment_end(s, i + 2, 1);
        let doc = i + 2 < s.len() && s[i + 2] == '*' && !(i + 3 < s.len() && (s[i + 3] == '*'
            || s[i + 3] == '/'));
        let o2 = if doc {
            Some(n)
        } else {
            outer
        };
        if let Some(j) = block_comment_end(s, i + 2, 1) {
            lemma_scan_ext(s, w, j, stack, false, o2);
        }
    } else if c == '"' {
        lemma_cooked_end_ext(s, w, i + 1);
        lemma_cooked_end(s, i + 1);
        if let Some(j) = cooked_end(s, i + 1) {
            lemma_scan_ext(s, w, j, stack, false, finish(outer, n));
        }
    } else if c == 'b' || c == 'c' || c == 'r' {
        lemma_prefixed_literal_ext(c, s, w, i + 1);
        lemma_prefixed_literal(c, s, i + 1);
        let (lit, j) = prefixed_literal(c, s, i + 1);
        match lit {
            None => {
                lemma_scan_ext(s, w, j, stack, false, finish(outer, n));
            },
            Some(l) => {
                lemma_literal_end_ext(l, s, w, j);
                lemma_literal_end(l, s, j);
                if let Some(k) = literal_end(l, s, j) {
                    lemma_scan_ext(s, w, k, stack, false, finish(outer, n));
                }
            },
        }
    } else if c == '\'' {
        if i + 1 < s.len() && (s[i + 1] == '_' || is_letter(s[i + 1])) && !(i + 2 < s.len()
            && s[i + 2] == '\'') {
            lemma_ident_end_ext(s, w, i + 1);
            lemma_ident_end(s, i + 1);
            let js = ident_end(s, i + 1);
            let jt = ident_end(t, i + 1);
            if jt == js {
                lemma_scan_ext(s, w, js, stack, false, finish(outer, n));
            } else {
                lemma_blank_tail(s, w, jt, stack, false, finish(outer, n));
                assert(needs_more_from(s, js, stack, false, finish(outer, n)) == (stack.len() > 0
                    || finish(outer, n) is Some));
            }
        } else {
            lemma_char_lit_end_ext(s, w, i + 1);
            lemma_char_lit_end(s, i + 1);
            if let Some(k) = char_lit_end(s, i + 1) {
                lemma_scan_ext(s, w, k, stack, false, finish(outer, n));
            }
        }
    } else if c == '#' {
        if i + 1 < s.len() && s[i + 1] == '[' {
            lemma_scan_ext(s, w, i + 1, stack, true, Some(n));
        } else {
            lemma_scan_ext(s, w, i + 1, stack, false, finish(outer, n));
        }
    } else if c == '(' || c == '[' || c == '{' {
        let opens_outer_attr = c == '[' && saw_hash;
        lemma_scan_ext(
            s,
            w,
            i + 1,
            stack.push(c),
            false,
            if opens_outer_attr {
                outer
            } else {
                finish(outer, n)
            },
        );
    } else if c == ')' || c == ']' || c == '}' {
        if !(n == 0 || stack.last() != opener_of(c)) {
            lemma_scan_ext(s, w, i + 1, stack.drop_last(), false, outer);
        }
    } else {
        lemma_scan_ext(
            s,
            w,
            i + 1,
            stack,
            false,
            if is_white_space(c) {
                outer
            } else {
                finish(outer, n)
            },
        );
    }
}

/// Whether `c` is an ASCII whitespace character: space, tab, line feed,
/// vertical tab, form feed or carriage return.
pub open spec fn is_ascii_blank(c: char) -> bool {
    c == ' ' || c == '\t' || c == '\n' || c == '\x0b' || c == '\x0c' || c == '\r'
}

/// Text made of ASCII whitespace (an empty line, spaces, tabs) is blank.
pub proof fn law_ascii_whitespace_is_blank(w: Seq<char>)
    requires
        forall|k: int| 0 <= k < w.len() ==> is_ascii_blank(#[trigger] w[k]),
    ensures
        blank(w),
{
    assert forall|k: int| 0 <= k < w.len() implies is_white_space(#[trigger] w[k]) && !is_letter(
        w[k],
    ) by {
        assert(is_ascii_blank(w[k]));
    }
}

/// Blank text (such as the line feed of an empty line) typed after a snippet
/// never changes whether the snippet is complete: an unfinished snippet
/// stays unfinished and a finished one stays finished.
pub proof fn law_trailing_blank_keeps_completeness(s: Seq<char>, w: Seq<char>)
    requires
        blank(w),
    ensures
        needs_more(s + w) == needs_more(s),
{
    lemma_scan_ext(s, w, 0, Seq::empty(), false, None);
}


// ---------------------------------------------------------------------------
// Law: on text without literals, comments or attributes, completeness is
// bracket matching
// ---------------------------------------------------------------------------

/// Whether `c` is one of `()[]{}`.
pub open spec fn is_bracket(c: char) -> bool {
    c == '(' || c == '[' || c == '{' || c == ')' || c == ']' || c == '}'
}

/// The brackets of `t`, in order.
pub open spec fn brackets(t: Seq<char>) -> Seq<char>
    decreases t.len(),
{
    if t.len() == 0 {
        Seq::empty()
    } else {
        (if is_bracket(t[0]) {
            seq![t[0]]
        } else {
            Seq::empty()
        }) + brackets(t.drop_first())
    }
}

/// Bracket matching over the brackets `p`, with the openers `stack` still
/// open: a closer must close the innermost open opener, or the answer is
/// `false` at once; at the end, the answer is whether an opener is left
/// open.
pub open spec fn brackets_open(p: Seq<char>, stack: Seq<char>) -> bool
    decreases p.len(),
{
    if p.len() == 0 {
        stack.len() > 0
    } else {
        let c = p[0];
        if c == '(' || c == '[' || c == '{' {
            brackets_open(p.drop_first(), stack.push(c))
        } else if stack.len() == 0 || stack.last() != opener_of(c) {
            false
        } else {
            brackets_open(p.drop_first(), stack.drop_last())
        }
    }
}

/// Text in which no literal, comment or attribute can start: no quote,
/// `#` or `/`.
pub open spec fn plain_text(s: Seq<char>) -> bool {
    forall|k: int|
        0 <= k < s.len() ==> #[trigger] s[k] != '"' && s[k] != '\'' && s[k] != '#' && s[k] != '/'
}

/// Scanning plain text from `i` matches the brackets left from `i`.
proof fn lemma_plain_scan(s: Seq<char>, i: int, stack: Seq<char>, saw_hash: bool)
    requires
        plain_text(s),
        0 <= i <= s.len(),
    ensures
        needs_more_from(s, i, stack, saw_hash, None) == brackets_open(
            brackets(s.subrange(i, s.len() as int)),
            stack,
        ),
    decreases s.len() - i,
{
    let len = s.len() as int;
    let t = s.subrange(i, len);
    if i == len {
        assert(t =~= Seq::<char>::empty());
        return;
    }
    let c = s[i];
    assert(t[0] == c);
    assert(t.drop_first() =~= s.subrange(i + 1, len));
    let rest = brackets(s.subrange(i + 1, len));
    if c == 'b' || c == 'c' || c == 'r' {
        if i + 1 < len {
            assert(s[i + 1] != '"' && s[i + 1] != '\'');
        }
        let h1 = hash_run(s, i + 1);
        lemma_hash_run(s, i + 1);
        if i + 1 + h1 < len {
            assert(s[i + 1 + h1] != '"');
        }
        let h2 = hash_run(s, i + 2);
        lemma_hash_run(s, i + 2);
        if i + 2 + h2 < len {
            assert(s[i + 2 + h2] != '"');
        }
        let (lit, j) = prefixed_literal(c, s, i + 1);
        assert(lit is None);
        assert(brackets(t) == rest);
        if j == i + 2 {
            let u = s.subrange(i + 1, len);
            assert(u[0] == s[i + 1]);
            assert(u.drop_first() =~= s.subrange(i + 2, len));
            lemma_plain_scan(s, i + 2, stack, false);
        } else {
            assert(j == i + 1);
            lemma_plain_scan(s, i + 1, stack, false);
        }
    } else if c == '(' || c == '[' || c == '{' {
        assert(brackets(t) == seq![c] + rest);
        assert((seq![c] + rest)[0] == c);
        assert((seq![c] + rest).drop_first() =~= rest);
        lemma_plain_scan(s, i + 1, stack.push(c), false);
    } else if c == ')' || c == ']' || c == '}' {
        assert(brackets(t) == seq![c] + rest);
        assert((seq![c] + rest)[0] == c);
        assert((seq![c] + rest).drop_first() =~= rest);
        if !(stack.len() == 0 || stack.last() != opener_of(c)) {
            lemma_plain_scan(s, i + 1, stack.drop_last(), false);
        }
    } else {
        assert(brackets(t) =~= rest);
        lemma_plain_scan(s, i + 1, stack, false);
    }
}

/// On text with no quote, `#` or `/` (so no literal, comment or attribute),
/// a snippet is unfinished exactly when its brackets leave an opener open,
/// and a closer that does not close the innermost opener ends the wait.
pub proof fn law_plain_text_is_bracket_matching(s: Seq<char>)
    requires
        plain_text(s),
    ensures
        needs_more(s) == brackets_open(brackets(s), Seq::empty()),
{
    lemma_plain_scan(s, 0, Seq::empty(), false);
    assert(s.subrange(0, s.len() as int) =~= s);
}


// ---------------------------------------------------------------------------
// Laws: raw strings in plain terms
// ---------------------------------------------------------------------------

/// A run of `h` characters `#` starting at `i` and not followed by another
/// `#` is the whole run there.
proof fn lemma_hash_run_exact(s: Seq<char>, i: int, h: nat)
    requires
        hashes_at(s, i, h),
        !(i + h < s.len() && s[i + h] == '#'),
    ensures
        hash_run(s, i) == h,
    decreases h,
{
    if h > 0 {
        assert(s[i] == '#');
        lemma_hash_run_exact(s, i + 1, (h - 1) as nat);
    }
}

/// A raw string opens at `i` with `h` characters `#` exactly when `h`
/// characters `#` stand at `i` followed by `"`; its body starts after that
/// quote (what `take_raw` computes).
pub proof fn law_raw_open(s: Seq<char>, i: int, j: int, h: nat)
    requires
        0 <= i,
    ensures
        raw_open(s, i) == Some((j, h)) <==> (hashes_at(s, i, h) && i + h < s.len() && s[i + h]
            == '"' && j == i + h + 1),
{
    lemma_hash_run(s, i);
    if hashes_at(s, i, h) && i + h < s.len() && s[i + h] == '"' {
        lemma_hash_run_exact(s, i, h);
    }
}

/// The text that closes a raw string opened with `h` characters `#`.
pub open spec fn raw_closer(h: nat) -> Seq<char> {
    seq!['"'] + Seq::new(h, |k: int| '#')
}

/// The raw-string closer stands at `i` exactly when `"` stands there
/// followed by `h` characters `#`.
proof fn lemma_raw_closer_at(s: Seq<char>, i: int, h: nat)
    requires
        0 <= i,
    ensures
        (i < s.len() && s[i] == '"' && hashes_at(s, i + 1, h)) == matches_at(s, i, raw_closer(h)),
{
    let q = raw_closer(h);
    if i < s.len() && s[i] == '"' && hashes_at(s, i + 1, h) {
        assert(s.subrange(i, i + q.len()) =~= q);
    }
    if matches_at(s, i, q) {
        let u = s.subrange(i, i + q.len());
        assert(s[i] == u[0]);
        assert forall|k: int| i + 1 <= k < i + 1 + h implies s[k] == '#' by {
            assert(s[k] == u[k - i]);
            assert(q[k - i] == '#');
        }
    }
}

/// No raw string closes where its closer no longer fits.
proof fn lemma_raw_end_short(s: Seq<char>, i: int, h: nat)
    requires
        i + 1 + h > s.len(),
    ensures
        raw_end(s, i, h) is None,
    decreases s.len() - i,
{
    if i < s.len() {
        lemma_raw_end_short(s, i + 1, h);
    }
}

/// A raw string opened with `h` characters `#` ends just after the first
/// `"` followed by `h` characters `#` (what `skip_raw_string` computes);
/// it is unclosed when no such text follows.
pub proof fn law_raw_string_ends_after_first_closer(s: Seq<char>, i: int, h: nat)
    requires
        0 <= i,
    ensures
        raw_end(s, i, h) == match find_from(s, raw_closer(h), i) {
            Some(p) => Some(p + 1 + h),
            None => None,
        },
    decreases s.len() - i,
{
    let q = raw_closer(h);
    if i + q.len() > s.len() {
        lemma_raw_end_short(s, i, h);
    } else {
        lemma_raw_closer_at(s, i, h);
        if !matches_at(s, i, q) {
            law_raw_string_ends_after_first_closer(s, i + 1, h);
        }
    }
}


// ---------------------------------------------------------------------------
// Laws: escapes in strings
// ---------------------------------------------------------------------------

/// In a string with escapes, a backslash always takes the next character
/// with it, whatever that character is: the string ends where it would end
/// scanning from after both.
pub proof fn law_backslash_takes_next_char(s: Seq<char>, i: int)
    requires
        0 <= i < s.len(),
        s[i] == '\\',
    ensures
        cooked_end(s, i) == cooked_end(s, i + 2),
{
}

/// Text with no quote and no backslash does not change where a string
/// ends.
proof fn lemma_cooked_plain_run(s: Seq<char>, i: int, j: int)
    requires
        0 <= i <= j <= s.len(),
        forall|k: int| i <= k < j ==> #[trigger] s[k] != '"' && s[k] != '\\',
    ensures
        cooked_end(s, i) == cooked_end(s, j),
    decreases j - i,
{
    if i < j {
        lemma_cooked_plain_run(s, i + 1, j);
    }
}

/// An escaped backslash does not escape the quote after it: a string body
/// that starts with `\\`, followed by text without quotes or backslashes,
/// ends at the first quote after that text, whatever precedes or follows;
/// so the snippet `"\\.."` is complete.
pub proof fn law_escaped_backslash_leaves_quote_closing(p: Seq<char>, b: Seq<char>, r: Seq<char>)
    requires
        forall|k: int| 0 <= k < b.len() ==> #[trigger] b[k] != '"' && b[k] != '\\',
    ensures
        cooked_end(p + seq!['\\', '\\'] + b + seq!['"'] + r, p.len() as int) == Some(
            (p.len() + b.len() + 3) as int,
        ),
        !needs_more(seq!['"', '\\', '\\'] + b + seq!['"']),
{
    let s = p + seq!['\\', '\\'] + b + seq!['"'] + r;
    let i = p.len() as int;
    assert(s[i] == '\\');
    assert forall|k: int| i + 2 <= k < i + 2 + b.len() implies #[trigger] s[k] != '"' && s[k]
        != '\\' by {
        assert(s[k] == b[k - i - 2]);
    }
    lemma_cooked_plain_run(s, i + 2, i + 2 + b.len());
    assert(s[i + 2 + b.len()] == '"');
    let t = seq!['"', '\\', '\\'] + b + seq!['"'];
    assert(t =~= seq!['"'] + seq!['\\', '\\'] + b + seq!['"'] + Seq::<char>::empty());
    assert(t[1] == '\\');
    assert forall|k: int| 3 <= k < 3 + b.len() implies #[trigger] t[k] != '"' && t[k] != '\\' by {
        assert(t[k] == b[k - 3]);
    }
    lemma_cooked_plain_run(t, 3, 3 + b.len() as int);
    assert(t[3 + b.len() as int] == '"');
    assert(cooked_end(t, 1) == Some(t.len() as int));
    assert(t[0] == '"');
    assert(finish(None, 0) is None);
    assert(!needs_more_from(t, t.len() as int, Seq::empty(), false, None));
    assert(needs_more_from(t, 0, Seq::empty(), false, None) == needs_more_from(
        t,
        t.len() as int,
        Seq::empty(),
        false,
        finish(None, 0),
    ));
}

} // verus!
