//! Generating the crate that evaluates a snippet.
//!
//! Every evaluation compiles one file: all items kept so far, then an
//! exported `__repl_eval` function that replays the persistent bindings and
//! runs the new snippet. The generator also reports the line of the file on
//! which the snippet starts, so that compiler diagnostics can be shifted to
//! the snippet's own line numbers.
use vstd::prelude::*;
use crate::parser::{InputKind, InputKindView};
use crate::text::{trim_end, ends_with_char, push_str, push_char, str_chars, trimmed_end};

verus! {

/// The first line of every generated file.
pub const HEADER: &'static str = "#![allow(unused, unused_imports, dead_code)]\n";

/// The opening of the evaluation function.
pub const EVAL_FN_OPEN: &'static str =
    "\n#[no_mangle]\npub extern \"C\" fn __repl_eval(_ctx: *mut std::ffi::c_void) {\n";

/// The printing helper followed by the opening of the evaluation function.
pub const PRINT_FN_OPEN: &'static str =
    "\nfn __repl_print<T: std::fmt::Debug>(value: T) {\n    if std::any::type_name::<T>() != \"()\" {\n        println!(\"{value:?}\");\n    }\n}\n\n#[no_mangle]\npub extern \"C\" fn __repl_eval(_ctx: *mut std::ffi::c_void) {\n";

/// Opens the call that prints an expression's value.
pub const PRINT_CALL_OPEN: &'static str = "    __repl_print({\n";

/// Closes the printing call and the evaluation function.
pub const PRINT_CALL_CLOSE: &'static str = "    });\n}\n";

/// Closes a function.
pub const FN_CLOSE: &'static str = "}\n";

/// A generated file, with the 1-based line of the snippet in it.
pub struct GeneratedSource {
    pub source: String,
    /// 1-based line of the user's snippet in `source`.
    pub snippet_start_line: usize,
}

impl std::ops::Deref for GeneratedSource {
    type Target = str;

    fn deref(&self) -> (r: &str)
        ensures
            r@ == self.source@,
    {
        self.source.as_str()
    }
}

// ---------------------------------------------------------------------------
// Specification
// ---------------------------------------------------------------------------

/// The number of line feeds in `s`.
pub open spec fn count_newlines(s: Seq<char>) -> nat
    decreases s.len(),
{
    if s.len() == 0 {
        0
    } else {
        count_newlines(s.drop_last()) + if s.last() == '\n' {
            1nat
        } else {
            0nat
        }
    }
}

/// The 1-based number of the line that begins after the text `s`.
pub open spec fn line_after(s: Seq<char>) -> int {
    count_newlines(s) + 1int
}

/// `s`, ended by a line feed if it does not end with one.
pub open spec fn with_newline(s: Seq<char>) -> Seq<char> {
    if ends_with_char(s, '\n') {
        s
    } else {
        s.push('\n')
    }
}

/// A statement, with `;` added unless it already ends with one (trailing
/// whitespace aside), on a line of its own.
pub open spec fn terminated(code: Seq<char>) -> Seq<char> {
    let body = if ends_with_char(trim_end(code), ';') {
        code
    } else {
        code.push(';')
    };
    body.push('\n')
}

/// The kept items, each on its own line(s).
pub open spec fn item_lines(items: Seq<Seq<char>>) -> Seq<char>
    decreases items.len(),
{
    if items.len() == 0 {
        Seq::empty()
    } else {
        item_lines(items.drop_last()) + items.last().push('\n')
    }
}

/// The replayed bindings, each terminated.
pub open spec fn binding_lines(bindings: Seq<Seq<char>>) -> Seq<char>
    decreases bindings.len(),
{
    if bindings.len() == 0 {
        Seq::empty()
    } else {
        binding_lines(bindings.drop_last()) + terminated(bindings.last())
    }
}

/// The texts of a sequence of strings.
pub open spec fn texts(v: Seq<String>) -> Seq<Seq<char>> {
    v.map_values(|s: String| s@)
}

/// The generated file before the snippet.
pub open spec fn before_snippet(
    kind: InputKindView,
    items: Seq<Seq<char>>,
    bindings: Seq<Seq<char>>,
) -> Seq<char> {
    let top = HEADER@ + item_lines(items);
    match kind {
        InputKindView::Item(_) => top,
        InputKindView::Statement(_) => top + EVAL_FN_OPEN@ + binding_lines(bindings),
        InputKindView::Expression(_) => top + PRINT_FN_OPEN@ + binding_lines(bindings)
            + PRINT_CALL_OPEN@,
    }
}

/// The snippet as it stands in the generated file, and what follows it.
pub open spec fn snippet_and_after(kind: InputKindView) -> Seq<char> {
    match kind {
        InputKindView::Item(code) => with_newline(code) + EVAL_FN_OPEN@ + seq!['\n'] + FN_CLOSE@,
        InputKindView::Statement(code) => terminated(code) + FN_CLOSE@,
        InputKindView::Expression(code) => with_newline(code) + PRINT_CALL_CLOSE@,
    }
}

/// The whole generated file.
pub open spec fn generated(
    kind: InputKindView,
    items: Seq<Seq<char>>,
    bindings: Seq<Seq<char>>,
) -> Seq<char> {
    before_snippet(kind, items, bindings) + snippet_and_after(kind)
}

/// Line feeds add up over a concatenation.
proof fn lemma_count_newlines_concat(a: Seq<char>, b: Seq<char>)
    ensures
        count_newlines(a + b) == count_newlines(a) + count_newlines(b),
    decreases b.len(),
{
    if b.len() > 0 {
        lemma_count_newlines_concat(a, b.drop_last());
        assert((a + b).drop_last() =~= a + b.drop_last());
    } else {
        assert(a + b =~= a);
    }
}

/// A text has no more line feeds than characters.
proof fn lemma_count_newlines_len(s: Seq<char>)
    ensures
        count_newlines(s) <= s.len(),
    decreases s.len(),
{
    if s.len() > 0 {
        lemma_count_newlines_len(s.drop_last());
    }
}

// ---------------------------------------------------------------------------
// Implementation
// ---------------------------------------------------------------------------

/// The 1-based number of the line that begins after the text `src`.
fn next_line_number(src: &str) -> (r: usize)
    requires
        count_newlines(src@) < usize::MAX,
    ensures
        r == line_after(src@),
{
    let chars = str_chars(src);
    let mut count: usize = 0;
    let mut i: usize = 0;
    while i < chars.len()
        invariant
            i <= chars@.len(),
            chars@ == src@,
            count == count_newlines(chars@.subrange(0, i as int)),
            count_newlines(src@) < usize::MAX,
        decreases chars@.len() - i,
    {
        assert(chars@.subrange(0, i + 1).drop_last() =~= chars@.subrange(0, i as int));
        proof {
            lemma_count_newlines_concat(chars@.subrange(0, i + 1), chars@.subrange(i + 1, chars@.len() as int));
            assert(chars@.subrange(0, i + 1) + chars@.subrange(i + 1, chars@.len() as int) =~= chars@);
        }
        if chars[i] == '\n' {
            count = count + 1;
        }
        i = i + 1;
    }
    assert(chars@.subrange(0, i as int) =~= chars@);
    count + 1
}

/// Appends `code` as a statement: with `;` unless it already ends with one
/// (trailing whitespace aside), and a line feed.
fn push_terminated_stmt(body: &mut String, code: &str)
    ensures
        final(body)@ == old(body)@ + terminated(code@),
{
    push_str(body, code);
    let chars = str_chars(code);
    let end = trimmed_end(chars.as_slice());
    if !(end.len() > 0 && end[end.len() - 1] == ';') {
        push_char(body, ';');
    }
    push_char(body, '\n');
    assert(final(body)@ =~= old(body)@ + terminated(code@));
}

/// Appends every binding as a terminated statement, in order.
fn push_bindings(body: &mut String, binding_history: &[String])
    ensures
        final(body)@ == old(body)@ + binding_lines(texts(binding_history@)),
{
    let ghost start = body@;
    let mut i: usize = 0;
    while i < binding_history.len()
        invariant
            i <= binding_history@.len(),
            body@ == start + binding_lines(texts(binding_history@.subrange(0, i as int))),
        decreases binding_history@.len() - i,
    {
        push_terminated_stmt(body, binding_history[i].as_str());
        i = i + 1;
        proof {
            let t = texts(binding_history@.subrange(0, i as int));
            assert(t.drop_last() =~= texts(binding_history@.subrange(0, i - 1)));
            assert(t.last() == binding_history@[i - 1]@);
            assert(body@ =~= start + binding_lines(t));
        }
    }
    assert(binding_history@.subrange(0, i as int) =~= binding_history@);
}

/// Appends an evaluation function with the given body.
fn push_eval_fn(out: &mut String, body: &str)
    ensures
        final(out)@ == old(out)@ + EVAL_FN_OPEN@ + with_newline(body@) + FN_CLOSE@,
{
    push_str(out, EVAL_FN_OPEN);
    push_str(out, body);
    let chars = str_chars(body);
    if !(chars.len() > 0 && chars[chars.len() - 1] == '\n') {
        push_char(out, '\n');
    }
    push_str(out, FN_CLOSE);
    assert(final(out)@ =~= old(out)@ + EVAL_FN_OPEN@ + with_newline(body@) + FN_CLOSE@);
}

/// Appends `code`, ended by a line feed if it does not end with one.
fn push_with_newline(out: &mut String, code: &str)
    ensures
        final(out)@ == old(out)@ + with_newline(code@),
{
    push_str(out, code);
    let chars = str_chars(code);
    if !(chars.len() > 0 && chars[chars.len() - 1] == '\n') {
        push_char(out, '\n');
    }
    assert(final(out)@ =~= old(out)@ + with_newline(code@));
}

/// The kept items' text only grows as items are added.
proof fn lemma_item_lines_prefix(items: Seq<Seq<char>>, i: int)
    requires
        0 <= i <= items.len(),
    ensures
        item_lines(items.subrange(0, i)).len() <= item_lines(items).len(),
    decreases items.len() - i,
{
    if i < items.len() {
        lemma_item_lines_prefix(items, i + 1);
        assert(items.subrange(0, i + 1).drop_last() =~= items.subrange(0, i));
    } else {
        assert(items.subrange(0, i) =~= items);
    }
}

/// The bindings' text only grows as bindings are added.
proof fn lemma_binding_lines_prefix(bindings: Seq<Seq<char>>, i: int)
    requires
        0 <= i <= bindings.len(),
    ensures
        binding_lines(bindings.subrange(0, i)).len() <= binding_lines(bindings).len(),
    decreases bindings.len() - i,
{
    if i < bindings.len() {
        lemma_binding_lines_prefix(bindings, i + 1);
        assert(bindings.subrange(0, i + 1).drop_last() =~= bindings.subrange(0, i));
    } else {
        assert(bindings.subrange(0, i) =~= bindings);
    }
}

/// The number of characters of `s`.
fn char_len(s: &str) -> (r: usize)
    ensures
        r == s@.len(),
{
    str_chars(s).len()
}

/// The length of a statement once terminated.
fn terminated_len(code: &str) -> (r: Option<usize>)
    ensures
        match r {
            Some(n) => n == terminated(code@).len(),
            None => terminated(code@).len() > usize::MAX,
        },
{
    let chars = str_chars(code);
    let end = trimmed_end(chars.as_slice());
    let semi: usize = if end.len() > 0 && end[end.len() - 1] == ';' {
        1
    } else {
        2
    };
    chars.len().checked_add(semi)
}

/// The length of a text once ended by a line feed.
fn with_newline_len(code: &str) -> (r: Option<usize>)
    ensures
        match r {
            Some(n) => n == with_newline(code@).len(),
            None => with_newline(code@).len() > usize::MAX,
        },
{
    let chars = str_chars(code);
    if chars.len() > 0 && chars[chars.len() - 1] == '\n' {
        Some(chars.len())
    } else {
        chars.len().checked_add(1)
    }
}

/// The number of characters of the kept items, each on its own line(s).
fn item_lines_len(items: &[String]) -> (r: Option<usize>)
    ensures
        match r {
            Some(n) => n == item_lines(texts(items@)).len(),
            None => item_lines(texts(items@)).len() > usize::MAX,
        },
{
    let mut total: usize = 0;
    let mut i: usize = 0;
    while i < items.len()
        invariant
            i <= items@.len(),
            total == item_lines(texts(items@.subrange(0, i as int))).len(),
        decreases items@.len() - i,
    {
        let ghost t = texts(items@.subrange(0, i + 1));
        assert(t.drop_last() =~= texts(items@.subrange(0, i as int)));
        assert(t.last() == items@[i as int]@);
        assert(texts(items@.subrange(0, i + 1)) =~= texts(items@).subrange(0, i + 1));
        let n = char_len(items[i].as_str());
        match total.checked_add(n) {
            None => {
                proof {
                    lemma_item_lines_prefix(texts(items@), i + 1);
                }
                return None;
            },
            Some(m) => match m.checked_add(1) {
                None => {
                    proof {
                        lemma_item_lines_prefix(texts(items@), i + 1);
                    }
                    return None;
                },
                Some(k) => {
                    total = k;
                },
            },
        }
        i = i + 1;
    }
    assert(items@.subrange(0, i as int) =~= items@);
    Some(total)
}

/// The number of characters of the replayed bindings.
fn binding_lines_len(bindings: &[String]) -> (r: Option<usize>)
    ensures
        match r {
            Some(n) => n == binding_lines(texts(bindings@)).len(),
            None => binding_lines(texts(bindings@)).len() > usize::MAX,
        },
{
    let mut total: usize = 0;
    let mut i: usize = 0;
    while i < bindings.len()
        invariant
            i <= bindings@.len(),
            total == binding_lines(texts(bindings@.subrange(0, i as int))).len(),
        decreases bindings@.len() - i,
    {
        let ghost t = texts(bindings@.subrange(0, i + 1));
        assert(t.drop_last() =~= texts(bindings@.subrange(0, i as int)));
        assert(t.last() == bindings@[i as int]@);
        assert(texts(bindings@.subrange(0, i + 1)) =~= texts(bindings@).subrange(0, i + 1));
        let n = match terminated_len(bindings[i].as_str()) {
            Some(n) => n,
            None => {
                proof {
                    lemma_binding_lines_prefix(texts(bindings@), i + 1);
                }
                return None;
            },
        };
        match total.checked_add(n) {
            None => {
                proof {
                    lemma_binding_lines_prefix(texts(bindings@), i + 1);
                }
                return None;
            },
            Some(k) => {
                total = k;
            },
        }
        i = i + 1;
    }
    assert(bindings@.subrange(0, i as int) =~= bindings@);
    Some(total)
}

/// The number of characters of the file that `generate_source` makes, or
/// `None` when that number does not fit in a `usize`.
pub fn generated_len(kind: &InputKind, item_history: &[String], binding_history: &[String]) -> (r:
    Option<usize>)
    ensures
        match r {
            Some(n) => n == generated(kind@, texts(item_history@), texts(binding_history@)).len(),
            None => generated(kind@, texts(item_history@), texts(binding_history@)).len()
                > usize::MAX,
        },
{
    let items = item_lines_len(item_history)?;
    let top = char_len(HEADER).checked_add(items)?;
    match kind {
        InputKind::Item(code) => {
            let snippet = with_newline_len(code.as_str())?;
            top.checked_add(snippet)?.checked_add(char_len(EVAL_FN_OPEN))?.checked_add(
                1,
            )?.checked_add(char_len(FN_CLOSE))
        },
        InputKind::Statement(code) => {
            let bindings = binding_lines_len(binding_history)?;
            let snippet = terminated_len(code.as_str())?;
            top.checked_add(char_len(EVAL_FN_OPEN))?.checked_add(bindings)?.checked_add(
                snippet,
            )?.checked_add(char_len(FN_CLOSE))
        },
        InputKind::Expression(code) => {
            let bindings = binding_lines_len(binding_history)?;
            let snippet = with_newline_len(code.as_str())?;
            top.checked_add(char_len(PRINT_FN_OPEN))?.checked_add(bindings)?.checked_add(
                char_len(PRINT_CALL_OPEN),
            )?.checked_add(snippet)?.checked_add(char_len(PRINT_CALL_CLOSE))
        },
    }
}

/// Generates the file that evaluates a snippet of the given kind after the
/// kept items and bindings, and the 1-based line on which the snippet
/// starts. An item is placed after the kept items, with an empty evaluation
/// function; a statement runs after the replayed bindings; an expression's
/// value is printed unless it is `()`.
pub fn generate_source(
    kind: &InputKind,
    item_history: &[String],
    binding_history: &[String],
) -> (r: GeneratedSource)
    requires
        generated(kind@, texts(item_history@), texts(binding_history@)).len() < usize::MAX,
    ensures
        r.source@ == generated(kind@, texts(item_history@), texts(binding_history@)),
        r.snippet_start_line == line_after(
            before_snippet(kind@, texts(item_history@), texts(binding_history@)),
        ),
{
    let ghost items = texts(item_history@);
    let ghost bindings = texts(binding_history@);
    let mut out = String::new();
    push_str(&mut out, HEADER);
    let mut i: usize = 0;
    while i < item_history.len()
        invariant
            i <= item_history@.len(),
            items == texts(item_history@),
            out@ == HEADER@ + item_lines(texts(item_history@.subrange(0, i as int))),
        decreases item_history@.len() - i,
    {
        push_str(&mut out, item_history[i].as_str());
        push_char(&mut out, '\n');
        i = i + 1;
        proof {
            let t = texts(item_history@.subrange(0, i as int));
            assert(t.drop_last() =~= texts(item_history@.subrange(0, i - 1)));
            assert(t.last() == item_history@[i - 1]@);
            assert(out@ =~= HEADER@ + item_lines(t));
        }
    }
    assert(item_history@.subrange(0, i as int) =~= item_history@);
    let ghost before = before_snippet(kind@, items, bindings);
    proof {
        lemma_count_newlines_concat(before, snippet_and_after(kind@));
        lemma_count_newlines_len(generated(kind@, items, bindings));
    }
    let snippet_start_line = match kind {
        InputKind::Item(code) => {
            let start = next_line_number(out.as_str());
            push_with_newline(&mut out, code.as_str());
            push_eval_fn(&mut out, "");
            proof {
                reveal_strlit("");
                assert(with_newline(""@) =~= seq!['\n']);
            }
            start
        },
        InputKind::Statement(code) => {
            push_str(&mut out, EVAL_FN_OPEN);
            push_bindings(&mut out, binding_history);
            let start = next_line_number(out.as_str());
            push_terminated_stmt(&mut out, code.as_str());
            push_str(&mut out, FN_CLOSE);
            start
        },
        InputKind::Expression(code) => {
            push_str(&mut out, PRINT_FN_OPEN);
            push_bindings(&mut out, binding_history);
            push_str(&mut out, PRINT_CALL_OPEN);
            let start = next_line_number(out.as_str());
            push_with_newline(&mut out, code.as_str());
            push_str(&mut out, PRINT_CALL_CLOSE);
            start
        },
    };
    assert(out@ =~= generated(kind@, items, bindings));
    GeneratedSource { source: out, snippet_start_line }
}


/// The snippet starts the line that `generate_source` reports: the file is
/// the text before the snippet, whose line count gives that line, followed
/// by the snippet itself.
pub proof fn law_snippet_starts_its_line(
    kind: InputKindView,
    items: Seq<Seq<char>>,
    bindings: Seq<Seq<char>>,
)
    ensures
        ({
            let g = generated(kind, items, bindings);
            let p = before_snippet(kind, items, bindings);
            &&& g.subrange(0, p.len() as int) == p
            &&& g.subrange(p.len() as int, (p.len() + kind.code().len()) as int) == kind.code()
            &&& (p.len() == 0 || p.last() == '\n')
        }),
{
    let g = generated(kind, items, bindings);
    let p = before_snippet(kind, items, bindings);
    let code = kind.code();
    assert(g.subrange(0, p.len() as int) =~= p);
    match kind {
        InputKindView::Item(c) => {
            assert(g.subrange(p.len() as int, (p.len() + code.len()) as int) =~= code);
        },
        InputKindView::Statement(c) => {
            assert(g.subrange(p.len() as int, (p.len() + code.len()) as int) =~= code);
        },
        InputKindView::Expression(c) => {
            assert(g.subrange(p.len() as int, (p.len() + code.len()) as int) =~= code);
        },
    }
    reveal_strlit("#![allow(unused, unused_imports, dead_code)]\n");
    reveal_strlit("\n#[no_mangle]\npub extern \"C\" fn __repl_eval(_ctx: *mut std::ffi::c_void) {\n");
    reveal_strlit("    __repl_print({\n");
    lemma_item_lines_end(items);
    lemma_binding_lines_end(bindings);
}

/// The line that `generate_source` reports is where the snippet starts:
/// it is at least 1, the file's text before the snippet holds exactly one
/// line feed fewer, and ends with one (unless it is empty), and the snippet
/// follows it.
pub proof fn law_start_line_is_the_snippet_line(
    kind: InputKindView,
    items: Seq<Seq<char>>,
    bindings: Seq<Seq<char>>,
)
    ensures
        ({
            let g = generated(kind, items, bindings);
            let p = before_snippet(kind, items, bindings);
            let line = line_after(p);
            &&& line >= 1
            &&& count_newlines(g.subrange(0, p.len() as int)) == line - 1
            &&& (p.len() == 0 || g[p.len() - 1] == '\n')
            &&& g.subrange(p.len() as int, (p.len() + kind.code().len()) as int) == kind.code()
        }),
{
    law_snippet_starts_its_line(kind, items, bindings);
    let g = generated(kind, items, bindings);
    let p = before_snippet(kind, items, bindings);
    if p.len() > 0 {
        assert(g[p.len() - 1] == g.subrange(0, p.len() as int)[p.len() - 1]);
    }
}

/// The layout of the generated file: the header, then every kept item on
/// its own line(s), in order. For a statement, the evaluation function
/// opens and replays every binding, terminated, before the snippet; for an
/// expression the same follows the printing helper, and the printing call
/// opens before the snippet. An item's file does not depend on the
/// bindings.
pub proof fn law_generated_layout(
    kind: InputKindView,
    items: Seq<Seq<char>>,
    bindings: Seq<Seq<char>>,
    other_bindings: Seq<Seq<char>>,
)
    ensures
        ({
            let g = generated(kind, items, bindings);
            let top = HEADER@ + item_lines(items);
            &&& g.subrange(0, top.len() as int) == top
            &&& kind is Statement ==> before_snippet(kind, items, bindings) == top + EVAL_FN_OPEN@
                + binding_lines(bindings)
            &&& kind is Expression ==> before_snippet(kind, items, bindings) == top
                + PRINT_FN_OPEN@ + binding_lines(bindings) + PRINT_CALL_OPEN@
            &&& kind is Item ==> g == generated(kind, items, other_bindings)
        }),
{
    let g = generated(kind, items, bindings);
    let top = HEADER@ + item_lines(items);
    let p = before_snippet(kind, items, bindings);
    assert(g =~= p + snippet_and_after(kind));
    match kind {
        InputKindView::Item(_) => {
            assert(g.subrange(0, top.len() as int) =~= top);
        },
        InputKindView::Statement(_) => {
            assert(p =~= top + (EVAL_FN_OPEN@ + binding_lines(bindings)));
            assert(g.subrange(0, top.len() as int) =~= top);
        },
        InputKindView::Expression(_) => {
            assert(p =~= top + (PRINT_FN_OPEN@ + binding_lines(bindings) + PRINT_CALL_OPEN@));
            assert(g.subrange(0, top.len() as int) =~= top);
        },
    }
}

/// Each replayed binding stands on its own line, ended by `;` unless it
/// already ends with one (trailing whitespace aside), in the order given.
pub proof fn law_binding_lines_in_order(bindings: Seq<Seq<char>>, b: Seq<char>)
    ensures
        binding_lines(bindings.push(b)) == binding_lines(bindings) + terminated(b),
        terminated(b) == (if ends_with_char(trim_end(b), ';') {
            b
        } else {
            b.push(';')
        }).push('\n'),
{
    assert(bindings.push(b).drop_last() =~= bindings);
}

/// The kept items' text is empty or ends a line.
proof fn lemma_item_lines_end(items: Seq<Seq<char>>)
    ensures
        item_lines(items).len() == 0 || item_lines(items).last() == '\n',
{
}

/// The bindings' text is empty or ends a line.
proof fn lemma_binding_lines_end(bindings: Seq<Seq<char>>)
    ensures
        binding_lines(bindings).len() == 0 || binding_lines(bindings).last() == '\n',
{
}

} // verus!
