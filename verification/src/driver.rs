//! The compiler driver's decisions: the names of the files it writes, what
//! it reports when `rustc` fails, and how `rustc`'s diagnostics are rewritten
//! so that they point at the snippet (`<repl>`, line 1 = the snippet's first
//! line) instead of the generated file.
//!
//! Writing files and running `rustc` is left to the caller; the functions
//! here take and give plain values.
use vstd::prelude::*;
use crate::text::{
    decimal, all_digits, digits_value, digit_value, law_parse_reads_decimal, lemma_decimal_digits, find_from, rfind_before, parse_usize, contains, split_once, rsplit_once, ends_with, ends_with_char, is_digit,
    replace_all, lines, str_chars, push_decimal, extend_chars, string_from_chars, sub_chars,
    rsplit_once_chars, parse_usize_chars, find_chars, split_once_chars, chars_eq,
    chars_end_with_chars, decimal_chars, replace_chars, split_lines,
};

verus! {

/// The operating system a library is built for; it decides the library's
/// file name.
#[derive(Debug, Clone, Copy, PartialEq, Eq)]
pub enum TargetOs {
    Windows,
    MacOs,
    /// Linux and the other Unix systems.
    Other,
}

/// A compiled evaluation library.
#[derive(Debug)]
pub struct Artifact {
    pub dylib_path: String,
}

/// The prefix of every evaluation library and source file name.
pub const EVAL_PREFIX: &'static str = "libeval_";

/// The prefix of every generated source file name.
pub const SOURCE_PREFIX: &'static str = "eval_";

/// The name that stands for the generated file in rewritten diagnostics.
pub const REPL_NAME: &'static str = "<repl>";

/// The marker before a primary span's location.
pub const SPAN_MARKER: &'static str = "--> ";

/// The marker before a secondary span's location.
pub const NOTE_MARKER: &'static str = "::: ";

/// What precedes the exit status when `rustc` printed nothing.
pub const EXIT_PREFIX: &'static str = "rustc exited with ";

/// The dynamic library extension for `os`.
pub open spec fn dylib_extension(os: TargetOs) -> Seq<char> {
    match os {
        TargetOs::Windows => ".dll"@,
        TargetOs::MacOs => ".dylib"@,
        TargetOs::Other => ".so"@,
    }
}

/// The file name of the `counter`-th evaluation library on `os`.
pub open spec fn spec_dylib_filename(counter: nat, os: TargetOs) -> Seq<char> {
    EVAL_PREFIX@ + decimal(counter) + dylib_extension(os)
}

/// The file name of the `counter`-th generated source file.
pub open spec fn spec_source_filename(counter: nat) -> Seq<char> {
    SOURCE_PREFIX@ + decimal(counter) + ".rs"@
}

/// A line number of the generated file as a line number of the snippet:
/// lines from the snippet's start on count from 1, earlier lines keep their
/// number.
pub open spec fn spec_map_line(generated_line: int, snippet_start_line: int) -> int {
    if generated_line >= snippet_start_line {
        generated_line - snippet_start_line + 1
    } else {
        generated_line
    }
}

/// `rest` read as `file:line:col`, split at its last two colons, with the
/// line a number.
pub open spec fn spec_split_file_line_col(rest: Seq<char>) -> Option<(Seq<char>, usize, Seq<char>)> {
    match rsplit_once(rest, ':') {
        None => None,
        Some((file_and_line, col)) => match rsplit_once(file_and_line, ':') {
            None => None,
            Some((file, line)) => match parse_usize(line) {
                None => None,
                Some(n) => Some((file, n, col)),
            },
        },
    }
}

/// The location marker a diagnostic line carries, if any.
pub open spec fn span_marker(line: Seq<char>) -> Option<Seq<char>> {
    if contains(line, SPAN_MARKER@) {
        Some(SPAN_MARKER@)
    } else if contains(line, NOTE_MARKER@) {
        Some(NOTE_MARKER@)
    } else {
        None
    }
}

/// A span line (`--> file:line:col` or `::: file:line:col`), rewritten to
/// `<repl>:line:col` with the snippet's line number when it points into the
/// generated file (`full`, or a path ending in `name`), with whether it does.
/// `None` when the line is not a span line.
pub open spec fn spec_remap_span_line(
    line: Seq<char>,
    full: Seq<char>,
    name: Seq<char>,
    snippet_start_line: int,
) -> Option<(Seq<char>, bool)> {
    match span_marker(line) {
        None => None,
        Some(marker) => match split_once(line, marker) {
            None => None,
            Some((prefix, rest)) => match spec_split_file_line_col(rest) {
                None => None,
                Some((file, line_no, col)) => if file == full || ends_with(file, name) {
                    Some(
                        (
                            prefix + marker + REPL_NAME@ + seq![':'] + decimal(
                                spec_map_line(line_no as int, snippet_start_line) as nat,
                            ) + seq![':'] + col,
                            true,
                        ),
                    )
                } else {
                    Some((line, false))
                },
            },
        },
    }
}

/// The position after the spaces starting at `i`.
pub open spec fn spaces_end(s: Seq<char>, i: int) -> int
    decreases s.len() - i,
{
    if 0 <= i < s.len() && s[i] == ' ' {
        spaces_end(s, i + 1)
    } else {
        i
    }
}

/// The position after the digits starting at `i`.
pub open spec fn digits_end(s: Seq<char>, i: int) -> int
    decreases s.len() - i,
{
    if 0 <= i < s.len() && is_digit(s[i]) {
        digits_end(s, i + 1)
    } else {
        i
    }
}

/// `n` spaces.
pub open spec fn spaces(n: nat) -> Seq<char> {
    Seq::new(n, |i: int| ' ')
}

/// `s` right-aligned in a field of `width` characters.
pub open spec fn pad_left(s: Seq<char>, width: int) -> Seq<char> {
    if s.len() >= width {
        s
    } else {
        spaces((width - s.len()) as nat) + s
    }
}

/// A source line quoted in a diagnostic (` 12 |     code`), with the line
/// number in its gutter mapped to the snippet's, right-aligned in the same
/// width. Other lines are kept.
pub open spec fn spec_remap_gutter_line(line: Seq<char>, snippet_start_line: int) -> Seq<char> {
    let num_start = spaces_end(line, 0);
    let num_end = digits_end(line, num_start);
    let bar = spaces_end(line, num_end);
    if num_start == num_end {
        line
    } else if bar >= line.len() || line[bar] != '|' {
        line
    } else {
        match parse_usize(line.subrange(num_start, num_end)) {
            None => line,
            Some(n) => pad_left(
                decimal(spec_map_line(n as int, snippet_start_line) as nat),
                num_end,
            ) + line.subrange(num_end, line.len() as int),
        }
    }
}

/// One diagnostic line rewritten, given whether the lines before it quote
/// the generated file; with whether the lines after it do.
pub open spec fn remap_step(
    line: Seq<char>,
    full: Seq<char>,
    name: Seq<char>,
    snippet_start_line: int,
    in_repl_span: bool,
) -> (Seq<char>, bool) {
    match spec_remap_span_line(line, full, name, snippet_start_line) {
        Some((text, is_repl)) => (text, is_repl),
        None => if in_repl_span {
            (spec_remap_gutter_line(line, snippet_start_line), in_repl_span)
        } else {
            (replace_all(replace_all(line, full, REPL_NAME@), name, REPL_NAME@), in_repl_span)
        },
    }
}

/// The lines rewritten one after another and joined by line feeds.
pub open spec fn remap_lines(
    ls: Seq<Seq<char>>,
    full: Seq<char>,
    name: Seq<char>,
    snippet_start_line: int,
    in_repl_span: bool,
) -> Seq<char>
    decreases ls.len(),
{
    if ls.len() == 0 {
        Seq::empty()
    } else {
        let (text, next) = remap_step(ls[0], full, name, snippet_start_line, in_repl_span);
        if ls.len() == 1 {
            text
        } else {
            text + seq!['\n'] + remap_lines(
                ls.drop_first(),
                full,
                name,
                snippet_start_line,
                next,
            )
        }
    }
}

/// The diagnostics `raw` rewritten line by line; a final line feed is kept.
pub open spec fn spec_remap_diagnostics(
    raw: Seq<char>,
    full: Seq<char>,
    name: Seq<char>,
    snippet_start_line: int,
) -> Seq<char> {
    remap_lines(lines(raw), full, name, snippet_start_line, false) + if ends_with_char(
        raw,
        '\n',
    ) {
        seq!['\n']
    } else {
        Seq::empty()
    }
}

/// What is reported when `rustc` fails: its error output, its standard
/// output, both, or its exit status when it printed nothing.
pub open spec fn spec_diagnostics_text(
    stderr: Seq<char>,
    stdout: Seq<char>,
    status: Seq<char>,
) -> Seq<char> {
    if stderr.len() > 0 && stdout.len() == 0 {
        stderr
    } else if stderr.len() == 0 && stdout.len() > 0 {
        stdout
    } else if stderr.len() > 0 && stdout.len() > 0 {
        stderr + stdout
    } else {
        EXIT_PREFIX@ + status
    }
}

// ---------------------------------------------------------------------------
// Implementation
// ---------------------------------------------------------------------------

/// The file name of the `counter`-th evaluation library on `os`:
/// `libeval_{counter}` with `.dll`, `.dylib` or `.so`.
pub fn dylib_filename(counter: usize, os: TargetOs) -> (r: String)
    ensures
        r@ == spec_dylib_filename(counter as nat, os),
{
    let mut name: Vec<char> = str_chars(EVAL_PREFIX);
    push_decimal(&mut name, counter);
    let ext = match os {
        TargetOs::Windows => str_chars(".dll"),
        TargetOs::MacOs => str_chars(".dylib"),
        TargetOs::Other => str_chars(".so"),
    };
    extend_chars(&mut name, ext.as_slice());
    string_from_chars(name.as_slice())
}

/// The file name of the `counter`-th generated source file, `eval_{counter}.rs`.
pub fn source_filename(counter: usize) -> (r: String)
    ensures
        r@ == spec_source_filename(counter as nat),
{
    let mut name: Vec<char> = str_chars(SOURCE_PREFIX);
    push_decimal(&mut name, counter);
    let ext = str_chars(".rs");
    extend_chars(&mut name, ext.as_slice());
    string_from_chars(name.as_slice())
}

/// A line number of the generated file as a line number of the snippet.
pub fn map_line(generated_line: usize, snippet_start_line: usize) -> (r: usize)
    requires
        generated_line < snippet_start_line || snippet_start_line >= 1 || generated_line
            < usize::MAX,
    ensures
        r == spec_map_line(generated_line as int, snippet_start_line as int),
{
    if generated_line >= snippet_start_line {
        generated_line - snippet_start_line + 1
    } else {
        generated_line
    }
}

/// `rest` read as `file:line:col`.
fn split_file_line_col(rest: &[char]) -> (r: Option<(Vec<char>, usize, Vec<char>)>)
    ensures
        match r {
            Some((f, n, c)) => spec_split_file_line_col(rest@) == Some((f@, n, c@)),
            None => spec_split_file_line_col(rest@) is None,
        },
{
    let (file_and_line, col) = match rsplit_once_chars(rest, ':') {
        Some(p) => p,
        None => return None,
    };
    let (file, line) = match rsplit_once_chars(file_and_line.as_slice(), ':') {
        Some(p) => p,
        None => return None,
    };
    let line_no = match parse_usize_chars(line.as_slice()) {
        Some(n) => n,
        None => return None,
    };
    Some((file, line_no, col))
}

/// Rewrites a span line that points into the generated file.
fn remap_span_line(line: &[char], full: &[char], name: &[char], snippet_start_line: usize) -> (r:
    Option<(Vec<char>, bool)>)
    requires
        snippet_start_line >= 1,
    ensures
        match r {
            Some((t, b)) => spec_remap_span_line(line@, full@, name@, snippet_start_line as int)
                == Some((t@, b)),
            None => spec_remap_span_line(line@, full@, name@, snippet_start_line as int) is None,
        },
{
    let span = str_chars(SPAN_MARKER);
    let note = str_chars(NOTE_MARKER);
    let marker = if find_chars(line, span.as_slice(), 0).is_some() {
        span
    } else if find_chars(line, note.as_slice(), 0).is_some() {
        note
    } else {
        return None;
    };
    let (prefix, rest) = match split_once_chars(line, marker.as_slice()) {
        Some(p) => p,
        None => return None,
    };
    let (file, line_no, col) = match split_file_line_col(rest.as_slice()) {
        Some(t) => t,
        None => return None,
    };
    let is_repl = chars_eq(file.as_slice(), full) || chars_end_with_chars(file.as_slice(), name);
    if !is_repl {
        return Some((sub_chars(line, 0, line.len()), false));
    }
    let mapped = map_line(line_no, snippet_start_line);
    let mut text = prefix;
    extend_chars(&mut text, marker.as_slice());
    let repl = str_chars(REPL_NAME);
    extend_chars(&mut text, repl.as_slice());
    text.push(':');
    push_decimal(&mut text, mapped);
    text.push(':');
    extend_chars(&mut text, col.as_slice());
    Some((text, true))
}

/// The position after the spaces starting at `i`.
fn skip_spaces(s: &[char], i: usize) -> (r: usize)
    requires
        i <= s@.len(),
    ensures
        r as int == spaces_end(s@, i as int),
        i <= r <= s@.len(),
{
    let mut j = i;
    while j < s.len() && s[j] == ' '
        invariant
            i <= j <= s@.len(),
            spaces_end(s@, j as int) == spaces_end(s@, i as int),
        decreases s@.len() - j,
    {
        j = j + 1;
    }
    j
}

/// The position after the digits starting at `i`.
fn skip_digits(s: &[char], i: usize) -> (r: usize)
    requires
        i <= s@.len(),
    ensures
        r as int == digits_end(s@, i as int),
        i <= r <= s@.len(),
{
    let mut j = i;
    while j < s.len() && ('0' <= s[j] && s[j] <= '9')
        invariant
            i <= j <= s@.len(),
            digits_end(s@, j as int) == digits_end(s@, i as int),
        decreases s@.len() - j,
    {
        j = j + 1;
    }
    j
}

/// Rewrites the line number in the gutter of a quoted source line.
fn remap_gutter_line(line: &[char], snippet_start_line: usize) -> (r: Vec<char>)
    requires
        snippet_start_line >= 1,
    ensures
        r@ == spec_remap_gutter_line(line@, snippet_start_line as int),
{
    let num_start = skip_spaces(line, 0);
    let num_end = skip_digits(line, num_start);
    if num_start == num_end {
        return sub_chars(line, 0, line.len());
    }
    let bar = skip_spaces(line, num_end);
    if bar >= line.len() || line[bar] != '|' {
        return sub_chars(line, 0, line.len());
    }
    let digits = sub_chars(line, num_start, num_end);
    let n = match parse_usize_chars(digits.as_slice()) {
        Some(n) => n,
        None => return sub_chars(line, 0, line.len()),
    };
    let mapped = decimal_chars(map_line(n, snippet_start_line));
    let mut out: Vec<char> = Vec::new();
    if mapped.len() < num_end {
        let pad = num_end - mapped.len();
        let mut k: usize = 0;
        while k < pad
            invariant
                k <= pad,
                out@ == spaces(k as nat),
            decreases pad - k,
        {
            out.push(' ');
            k = k + 1;
            assert(out@ =~= spaces(k as nat));
        }
    }
    extend_chars(&mut out, mapped.as_slice());
    let rest = sub_chars(line, num_end, line.len());
    extend_chars(&mut out, rest.as_slice());
    assert(out@ =~= spec_remap_gutter_line(line@, snippet_start_line as int));
    out
}

/// Rewrites `rustc`'s diagnostics for the generated file `src_file` (whose
/// file name is `src_name`) so that spans read `<repl>:line:col` with line 1
/// being the snippet's first line (`snippet_start_line` in the generated
/// file, 1-based), the source lines they quote carry the snippet's line
/// numbers, and other mentions of the file read `<repl>`.
pub fn remap_diagnostics(raw: &str, src_file: &str, src_name: &str, snippet_start_line: usize) -> (r:
    String)
    requires
        snippet_start_line >= 1,
    ensures
        r@ == spec_remap_diagnostics(raw@, src_file@, src_name@, snippet_start_line as int),
{
    let full = str_chars(src_file);
    let name = str_chars(src_name);
    let repl = str_chars(REPL_NAME);
    let raw_chars = str_chars(raw);
    let ls = split_lines(raw_chars.as_slice());
    let ghost lv = ls@.map_values(|l: Vec<char>| l@);
    let ghost start = snippet_start_line as int;
    let mut out: Vec<char> = Vec::new();
    let mut in_repl_span = false;
    let mut i: usize = 0;
    assert(lv.subrange(0, lv.len() as int) =~= lv);
    assert(out@ + Seq::<char>::empty() =~= Seq::<char>::empty());
    while i < ls.len()
        invariant
            i <= ls@.len(),
            lv == ls@.map_values(|l: Vec<char>| l@),
            lv == lines(raw@),
            full@ == src_file@,
            name@ == src_name@,
            repl@ == REPL_NAME@,
            snippet_start_line >= 1,
            start == snippet_start_line as int,
            out@ + (if i == 0 || i == ls@.len() {
                Seq::<char>::empty()
            } else {
                seq!['\n']
            }) + remap_lines(lv.subrange(i as int, lv.len() as int), full@, name@, start, in_repl_span)
                == remap_lines(lv, full@, name@, start, false),
        decreases ls@.len() - i,
    {
        let ghost rest = lv.subrange(i as int, lv.len() as int);
        assert(rest[0] == ls@[i as int]@);
        assert(rest.drop_first() =~= lv.subrange(i + 1, lv.len() as int));
        if i > 0 {
            out.push('\n');
        }
        let line = &ls[i];
        match remap_span_line(line.as_slice(), full.as_slice(), name.as_slice(), snippet_start_line) {
            Some((text, is_repl)) => {
                in_repl_span = is_repl;
                extend_chars(&mut out, text.as_slice());
            },
            None => {
                if in_repl_span {
                    let text = remap_gutter_line(line.as_slice(), snippet_start_line);
                    extend_chars(&mut out, text.as_slice());
                } else {
                    let once = replace_chars(line.as_slice(), full.as_slice(), repl.as_slice());
                    let twice = replace_chars(once.as_slice(), name.as_slice(), repl.as_slice());
                    extend_chars(&mut out, twice.as_slice());
                }
            },
        }
        i = i + 1;
        assert(out@ + (if i == 0 || i == ls@.len() {
            Seq::<char>::empty()
        } else {
            seq!['\n']
        }) + remap_lines(lv.subrange(i as int, lv.len() as int), full@, name@, start, in_repl_span)
            =~= remap_lines(lv, full@, name@, start, false));
    }
    assert(lv.subrange(i as int, lv.len() as int) =~= Seq::<Seq<char>>::empty());
    if raw_chars.len() > 0 && raw_chars[raw_chars.len() - 1] == '\n' {
        out.push('\n');
    }
    assert(out@ =~= spec_remap_diagnostics(raw@, src_file@, src_name@, snippet_start_line as int));
    string_from_chars(out.as_slice())
}

/// What to report when `rustc` fails, from its error output, its standard
/// output and its exit status.
pub fn diagnostics_text(stderr: &str, stdout: &str, status: &str) -> (r: String)
    ensures
        r@ == spec_diagnostics_text(stderr@, stdout@, status@),
{
    let err = str_chars(stderr);
    let out = str_chars(stdout);
    let mut text: Vec<char> = Vec::new();
    if err.len() > 0 && out.len() == 0 {
        extend_chars(&mut text, err.as_slice());
    } else if err.len() == 0 && out.len() > 0 {
        extend_chars(&mut text, out.as_slice());
    } else if err.len() > 0 && out.len() > 0 {
        extend_chars(&mut text, err.as_slice());
        extend_chars(&mut text, out.as_slice());
    } else {
        let prefix = str_chars(EXIT_PREFIX);
        extend_chars(&mut text, prefix.as_slice());
        let st = str_chars(status);
        extend_chars(&mut text, st.as_slice());
    }
    assert(text@ =~= spec_diagnostics_text(stderr@, stdout@, status@));
    string_from_chars(text.as_slice())
}

/// The outcome of running `rustc` on the generated file `src_file` (named
/// `src_name`): the library at `dylib_path` when it succeeded, and otherwise
/// its diagnostics rewritten to point at the snippet.
pub fn compile_outcome(
    succeeded: bool,
    diagnostics: &str,
    src_file: &str,
    src_name: &str,
    snippet_start_line: usize,
    dylib_path: String,
) -> (r: Result<Artifact, String>)
    requires
        snippet_start_line >= 1,
    ensures
        match r {
            Ok(a) => succeeded && a.dylib_path@ == dylib_path@,
            Err(e) => !succeeded && e@ == spec_remap_diagnostics(
                diagnostics@,
                src_file@,
                src_name@,
                snippet_start_line as int,
            ),
        },
{
    if succeeded {
        Ok(Artifact { dylib_path })
    } else {
        Err(remap_diagnostics(diagnostics, src_file, src_name, snippet_start_line))
    }
}


/// A span line decides, on its own, whether the lines after it quote the
/// generated file: a span into another file ends the generated file's
/// span, whatever came before, so the lines it quotes keep their numbers;
/// a span into the generated file starts one. Lines that are not span
/// lines leave that state as it was.
pub proof fn law_span_lines_set_the_quoted_file(
    line: Seq<char>,
    full: Seq<char>,
    name: Seq<char>,
    snippet_start_line: int,
    in_repl_span: bool,
)
    ensures
        spec_remap_span_line(line, full, name, snippet_start_line) matches Some((t, false))
            ==> remap_step(line, full, name, snippet_start_line, in_repl_span) == (t, false),
        spec_remap_span_line(line, full, name, snippet_start_line) matches Some((t, true))
            ==> remap_step(line, full, name, snippet_start_line, in_repl_span) == (t, true),
        spec_remap_span_line(line, full, name, snippet_start_line) is None ==> remap_step(
            line,
            full,
            name,
            snippet_start_line,
            in_repl_span,
        ).1 == in_repl_span,
{
}

/// After a span line, what came before no longer matters: diagnostics that
/// start with a span line are rewritten the same whether or not the lines
/// before them quoted the generated file.
pub proof fn law_span_line_forgets_what_came_before(
    ls: Seq<Seq<char>>,
    full: Seq<char>,
    name: Seq<char>,
    snippet_start_line: int,
)
    requires
        ls.len() > 0,
        spec_remap_span_line(ls[0], full, name, snippet_start_line) is Some,
    ensures
        remap_lines(ls, full, name, snippet_start_line, true) == remap_lines(
            ls,
            full,
            name,
            snippet_start_line,
            false,
        ),
{
}

/// Line numbers of the generated file from the snippet's start on become
/// the snippet's own, counting from 1: the snippet's first line is line 1.
pub proof fn law_snippet_lines_count_from_one(generated_line: int, snippet_start_line: int)
    requires
        snippet_start_line <= generated_line,
    ensures
        spec_map_line(generated_line, snippet_start_line) == generated_line - snippet_start_line
            + 1,
        spec_map_line(snippet_start_line, snippet_start_line) == 1,
{
}


/// The last `:` before `j` is at `p` when none lies between them.
proof fn lemma_rfind_colon(s: Seq<char>, p: int, j: int)
    requires
        0 <= p < j <= s.len(),
        s[p] == ':',
        forall|k: int| p < k < j ==> s[k] != ':',
    ensures
        rfind_before(s, ':', j) == Some(p),
    decreases j - p,
{
    if j > p + 1 {
        lemma_rfind_colon(s, p, j - 1);
    }
}

/// Splitting at the last `:` separates a colon-free tail.
proof fn lemma_rsplit_last_colon(a: Seq<char>, b: Seq<char>)
    requires
        forall|k: int| 0 <= k < b.len() ==> b[k] != ':',
    ensures
        rsplit_once(a + seq![':'] + b, ':') == Some((a, b)),
{
    let s = a + seq![':'] + b;
    let p = a.len() as int;
    assert(s[p] == ':');
    assert forall|k: int| p < k < s.len() implies s[k] != ':' by {
        assert(s[k] == b[k - p - 1]);
    }
    lemma_rfind_colon(s, p, s.len() as int);
    assert(s.subrange(0, p) =~= a);
    assert(s.subrange(p + 1, s.len() as int) =~= b);
}

/// A marker that follows only spaces is found where it stands.
proof fn lemma_find_after_spaces(s: Seq<char>, k: int, m: Seq<char>, i: int)
    requires
        0 <= i <= k,
        k + m.len() <= s.len(),
        m.len() > 0,
        m[0] != ' ',
        forall|j: int| 0 <= j < k ==> s[j] == ' ',
        s.subrange(k, k + m.len()) == m,
    ensures
        find_from(s, m, i) == Some(k),
    decreases k - i,
{
    if i < k {
        assert(s.subrange(i, i + m.len())[0] == s[i]);
        lemma_find_after_spaces(s, k, m, i + 1);
    }
}

/// Digits are not colons.
proof fn lemma_digits_have_no_colon(d: Seq<char>)
    requires
        all_digits(d),
    ensures
        forall|k: int| 0 <= k < d.len() ==> d[k] != ':',
{
    assert forall|k: int| 0 <= k < d.len() implies d[k] != ':' by {
        assert(is_digit(d[k]));
    }
}

/// `file:line:col` reads back as the file (which may hold colons), the
/// line number and a column without colons.
pub proof fn law_split_file_line_col_round_trip(file: Seq<char>, n: usize, col: Seq<char>)
    requires
        forall|k: int| 0 <= k < col.len() ==> col[k] != ':',
    ensures
        spec_split_file_line_col(file + seq![':'] + decimal(n as nat) + seq![':'] + col) == Some(
            (file, n, col),
        ),
{
    let d = decimal(n as nat);
    law_parse_reads_decimal(n);
    lemma_decimal_digits(n as nat);
    lemma_digits_have_no_colon(d);
    lemma_rsplit_last_colon(file + seq![':'] + d, col);
    lemma_rsplit_last_colon(file, d);
}

/// The spaces after `i` end between `i` and the end of the text.
proof fn lemma_spaces_end(s: Seq<char>, i: int)
    requires
        0 <= i <= s.len(),
    ensures
        i <= spaces_end(s, i) <= s.len(),
    decreases s.len() - i,
{
    if i < s.len() && s[i] == ' ' {
        lemma_spaces_end(s, i + 1);
    }
}

/// The digits after `i` end between `i` and the end of the text, and all
/// that lies between are digits.
proof fn lemma_digits_end(s: Seq<char>, i: int)
    requires
        0 <= i <= s.len(),
    ensures
        i <= digits_end(s, i) <= s.len(),
        forall|k: int| i <= k < digits_end(s, i) ==> is_digit(#[trigger] s[k]),
    decreases s.len() - i,
{
    if i < s.len() && is_digit(s[i]) {
        lemma_digits_end(s, i + 1);
    }
}

/// A number is written with no more characters than any run of digits
/// worth it.
proof fn lemma_decimal_no_longer_than_digits(d: Seq<char>)
    requires
        d.len() >= 1,
        all_digits(d),
    ensures
        decimal(digits_value(d)).len() <= d.len(),
    decreases d.len(),
{
    let v = digits_value(d);
    let a = digits_value(d.drop_last());
    let b = digit_value(d.last());
    assert(is_digit(d[d.len() - 1]));
    assert(b < 10);
    if d.len() == 1 {
        assert(d.drop_last().len() == 0);
        assert(v == b);
    } else if v >= 10 {
        assert(all_digits(d.drop_last())) by {
            assert forall|k: int| 0 <= k < d.drop_last().len() implies is_digit(
                #[trigger] d.drop_last()[k],
            ) by {
                assert(d.drop_last()[k] == d[k]);
            }
        }
        assert(v == a * 10 + b);
        assert(v / 10 == a) by (nonlinear_arith)
            requires
                v == a * 10 + b,
                b < 10,
        ;
        lemma_decimal_no_longer_than_digits(d.drop_last());
    }
}

/// A smaller number is written with no more characters.
proof fn lemma_decimal_len_monotone(m: nat, n: nat)
    requires
        m <= n,
    ensures
        decimal(m).len() <= decimal(n).len(),
    decreases n,
{
    if m >= 10 {
        assert(m / 10 <= n / 10) by (nonlinear_arith)
            requires
                m <= n,
        ;
        lemma_decimal_len_monotone(m / 10, n / 10);
    }
}

/// Rewriting the line number in a quoted source line keeps the line's
/// length: the snippet's line number is never longer than the generated
/// file's, and it is right-aligned in the same width, so the `|` keeps its
/// column.
pub proof fn law_gutter_keeps_line_length(line: Seq<char>, snippet_start_line: int)
    requires
        snippet_start_line >= 1,
    ensures
        spec_remap_gutter_line(line, snippet_start_line).len() == line.len(),
{
    let num_start = spaces_end(line, 0);
    lemma_spaces_end(line, 0);
    let num_end = digits_end(line, num_start);
    lemma_digits_end(line, num_start);
    let bar = spaces_end(line, num_end);
    lemma_spaces_end(line, num_end);
    if num_start != num_end && !(bar >= line.len() || line[bar] != '|') {
        let d = line.subrange(num_start, num_end);
        assert(all_digits(d)) by {
            assert forall|k: int| 0 <= k < d.len() implies is_digit(#[trigger] d[k]) by {
                assert(d[k] == line[num_start + k]);
            }
        }
        if d.len() > 0 {
            assert(is_digit(d[0]));
        }
        if let Some(n) = parse_usize(d) {
            assert(n as nat == digits_value(d));
            let m = spec_map_line(n as int, snippet_start_line);
            lemma_decimal_no_longer_than_digits(d);
            lemma_decimal_len_monotone(m as nat, n as nat);
        }
    }
}

/// A primary span on a line of the generated file at or after the snippet's
/// start, as `rustc` prints it (`  --> path:line:col`), is rewritten to
/// `<repl>` with the line counted from the snippet's first line, which is
/// line 1.
pub proof fn law_span_points_at_snippet_line(
    indent: nat,
    full: Seq<char>,
    name: Seq<char>,
    line_no: usize,
    col: usize,
    snippet_start_line: int,
)
    requires
        1 <= snippet_start_line <= line_no,
    ensures
        ({
            let line = spaces(indent) + SPAN_MARKER@ + full + seq![':'] + decimal(line_no as nat)
                + seq![':'] + decimal(col as nat);
            spec_remap_span_line(line, full, name, snippet_start_line) == Some(
                (
                    spaces(indent) + SPAN_MARKER@ + REPL_NAME@ + seq![':'] + decimal(
                        (line_no - snippet_start_line + 1) as nat,
                    ) + seq![':'] + decimal(col as nat),
                    true,
                ),
            )
        }),
{
    reveal_strlit("--> ");
    let m = SPAN_MARKER@;
    let pre = spaces(indent);
    let ln = decimal(line_no as nat);
    let cl = decimal(col as nat);
    let rest = full + seq![':'] + ln + seq![':'] + cl;
    let line = pre + m + full + seq![':'] + ln + seq![':'] + cl;
    assert(line =~= pre + m + rest);
    let k = indent as int;
    assert(line.subrange(k, k + m.len()) =~= m);
    lemma_find_after_spaces(line, k, m, 0);
    assert(line.subrange(0, k) =~= pre);
    assert(line.subrange(k + m.len(), line.len() as int) =~= rest);
    assert(split_once(line, m) == Some((pre, rest)));
    law_parse_reads_decimal(line_no);
    law_parse_reads_decimal(col);
    lemma_decimal_digits(line_no as nat);
    lemma_decimal_digits(col as nat);
    lemma_digits_have_no_colon(ln);
    lemma_digits_have_no_colon(cl);
    assert(rest =~= (full + seq![':'] + ln) + seq![':'] + cl);
    lemma_rsplit_last_colon(full + seq![':'] + ln, cl);
    lemma_rsplit_last_colon(full, ln);
}


/// Texts with equal surroundings are equal when the wholes are.
proof fn lemma_middle_equal(p: Seq<char>, a: Seq<char>, b: Seq<char>, q: Seq<char>)
    requires
        p + a + q == p + b + q,
    ensures
        a == b,
{
    let x = p + a + q;
    let y = p + b + q;
    assert(x.len() == y.len());
    assert(x.len() == p.len() + a.len() + q.len());
    assert(y.len() == p.len() + b.len() + q.len());
    assert(a.len() == b.len());
    assert forall|k: int| 0 <= k < a.len() implies a[k] == b[k] by {
        assert(x[p.len() + k] == a[k]);
        assert(y[p.len() + k] == b[k]);
    }
    assert(a =~= x.subrange(p.len() as int, (p.len() + a.len()) as int));
    assert(b =~= y.subrange(p.len() as int, (p.len() + b.len()) as int));
}

/// Different counters name different libraries and different source files,
/// so no evaluation overwrites another's files (on platforms other than
/// macOS, where one published library is reused on purpose).
pub proof fn law_counters_name_distinct_files(a: nat, b: nat, os: TargetOs)
    requires
        a != b,
    ensures
        spec_dylib_filename(a, os) != spec_dylib_filename(b, os),
        spec_source_filename(a) != spec_source_filename(b),
{
    lemma_decimal_digits(a);
    lemma_decimal_digits(b);
    if spec_dylib_filename(a, os) == spec_dylib_filename(b, os) {
        lemma_middle_equal(EVAL_PREFIX@, decimal(a), decimal(b), dylib_extension(os));
    }
    if spec_source_filename(a) == spec_source_filename(b) {
        lemma_middle_equal(SOURCE_PREFIX@, decimal(a), decimal(b), ".rs"@);
    }
}

} // verus!
