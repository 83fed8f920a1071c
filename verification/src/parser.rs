//! Classifying a complete snippet as an item, a statement or an expression.
//!
//! Items are replayed at crate level, statements inside the evaluation
//! function, and expressions are evaluated and printed. Bindings (`let`),
//! assignments and method calls are "persistent": they are replayed on every
//! later evaluation so that state builds up.
use vstd::prelude::*;
use crate::text::{
    law_trim_is_idempotent, trim, trim_end, trim_end_matches, ends_with_char, trimmed, trimmed_end, trimmed_end_matches,
    string_from_chars, str_chars, push_char, chars_end_with,
};
use crate::syntax::{
    ItemShape, ItemShapeView, ExprShape, ExprShapeView, StmtShape, StmtShapeView, syn_item,
    syn_file, syn_stmt, parse_item, parse_file, parse_stmt, opt_chars,
};

verus! {

/// How a snippet is evaluated, with the text that is replayed.
#[derive(Debug, PartialEq, Eq)]
pub enum InputKind {
    /// An item, kept at crate level for the rest of the session.
    Item(String),
    /// A statement, run inside the evaluation function.
    Statement(String),
    /// An expression, evaluated and printed.
    Expression(String),
}

/// The mathematical value of an [`InputKind`].
pub enum InputKindView {
    Item(Seq<char>),
    Statement(Seq<char>),
    Expression(Seq<char>),
}

impl View for InputKind {
    type V = InputKindView;

    open spec fn view(&self) -> InputKindView {
        match self {
            InputKind::Item(c) => InputKindView::Item(c@),
            InputKind::Statement(c) => InputKindView::Statement(c@),
            InputKind::Expression(c) => InputKindView::Expression(c@),
        }
    }
}

impl InputKindView {
    /// The text the snippet is replayed as.
    pub open spec fn code(self) -> Seq<char> {
        match self {
            InputKindView::Item(c) => c,
            InputKindView::Statement(c) => c,
            InputKindView::Expression(c) => c,
        }
    }
}

// ---------------------------------------------------------------------------
// Specification
// ---------------------------------------------------------------------------

/// A macro invocation in item position (`println!(..)`) behaves like a
/// statement; only `macro_rules!` defines an item.
pub open spec fn spec_is_stmt_like_macro(item: ItemShapeView) -> bool {
    match item {
        ItemShapeView::Macro { path, .. } => path != Some("macro_rules"@),
        _ => false,
    }
}

/// Whether `src` is one item, or a file of items not all of which are macro
/// invocations.
pub open spec fn spec_is_item(src: Seq<char>) -> bool {
    match syn_item(src) {
        Some(item) => !spec_is_stmt_like_macro(item),
        None => match syn_file(src) {
            Some(items) => spec_file_is_item(items),
            None => false,
        },
    }
}

/// Whether a file's items make an item snippet: there is at least one, and
/// not all are macro invocations.
pub open spec fn spec_file_is_item(items: Seq<ItemShapeView>) -> bool {
    items.len() > 0 && !(forall|k: int|
        0 <= k < items.len() ==> #[trigger] spec_is_stmt_like_macro(items[k]))
}

/// The item text to replay at crate root: `src` itself when it is an item,
/// or `src` without trailing semicolons (and the whitespace before them) when
/// that is an item.
pub open spec fn spec_item_source(src: Seq<char>) -> Option<Seq<char>> {
    if spec_is_item(src) {
        Some(src)
    } else {
        let stripped = trim_end(trim_end_matches(src, ';'));
        if stripped.len() < src.len() && spec_is_item(stripped) {
            Some(stripped)
        } else {
            None
        }
    }
}

/// The statement `src` parses as, trimmed, first as written and then with a
/// `;` appended.
pub open spec fn spec_parses_as_stmt(src: Seq<char>) -> Option<StmtShapeView> {
    let t = trim(src);
    match syn_stmt(t) {
        Some(s) => Some(s),
        None => syn_stmt(t.push(';')),
    }
}

/// The compound assignment operators.
pub open spec fn is_compound_assign_op(op: Seq<char>) -> bool {
    ||| op == "+="@
    ||| op == "-="@
    ||| op == "*="@
    ||| op == "/="@
    ||| op == "%="@
    ||| op == "^="@
    ||| op == "&="@
    ||| op == "|="@
    ||| op == "<<="@
    ||| op == ">>="@
}

/// Whether the expression is an assignment, plain or compound.
pub open spec fn spec_is_assign_expr(e: ExprShapeView) -> bool {
    match e {
        ExprShapeView::Assign => true,
        ExprShapeView::Binary { op } => is_compound_assign_op(op),
        _ => false,
    }
}

/// `let` or `let mut`, with or without its semicolon.
pub open spec fn spec_is_let_binding(src: Seq<char>) -> bool {
    spec_parses_as_stmt(src) == Some(StmtShapeView::Local)
}

/// An assignment, `a = 1` or `a += 1`.
pub open spec fn spec_is_assignment(src: Seq<char>) -> bool {
    match spec_parses_as_stmt(src) {
        Some(StmtShapeView::Expr(e)) => spec_is_assign_expr(e),
        _ => false,
    }
}

/// A method call, `a.push(1)`.
pub open spec fn spec_is_method_call(src: Seq<char>) -> bool {
    spec_parses_as_stmt(src) == Some(StmtShapeView::Expr(ExprShapeView::MethodCall))
}

/// A binding, assignment or method call: replayed on later evaluations.
pub open spec fn spec_is_persistent_binding(src: Seq<char>) -> bool {
    spec_is_let_binding(src) || spec_is_assignment(src) || spec_is_method_call(src)
}

/// A persistent binding, or a statement ending in `;`.
pub open spec fn spec_is_statement(src: Seq<char>) -> bool {
    spec_is_persistent_binding(src) || (ends_with_char(src, ';') && syn_stmt(src) is Some)
}

/// How the snippet `raw` is evaluated.
pub open spec fn classify(raw: Seq<char>) -> InputKindView {
    let t = trim(raw);
    match spec_item_source(t) {
        Some(item) => InputKindView::Item(item),
        None => if spec_is_statement(t) {
            InputKindView::Statement(t)
        } else {
            InputKindView::Expression(t)
        },
    }
}

// ---------------------------------------------------------------------------
// Implementation
// ---------------------------------------------------------------------------

/// Whether the characters `a` spell `b`.
fn chars_eq_str(a: &[char], b: &str) -> (r: bool)
    ensures
        r == (a@ == b@),
{
    let w = str_chars(b);
    if a.len() != w.len() {
        return false;
    }
    let mut i: usize = 0;
    while i < a.len()
        invariant
            a@.len() == w@.len(),
            w@ == b@,
            i <= a@.len(),
            forall|k: int| 0 <= k < i ==> a@[k] == w@[k],
        decreases a@.len() - i,
    {
        if a[i] != w[i] {
            return false;
        }
        i = i + 1;
    }
    assert(a@ =~= w@);
    true
}

/// Whether the parsed item is a macro invocation rather than a
/// `macro_rules!` definition.
pub fn is_stmt_like_macro(item: &ItemShape) -> (r: bool)
    ensures
        r == spec_is_stmt_like_macro(item@),
{
    match item {
        ItemShape::Macro { path, .. } => match path {
            Some(p) => {
                let pc = str_chars(p.as_str());
                !chars_eq_str(pc.as_slice(), "macro_rules")
            },
            None => true,
        },
        _ => false,
    }
}

/// Whether the items of a parsed file make an item snippet: at least one,
/// and not all macro invocations.
pub fn file_is_item(items: &Vec<ItemShape>) -> (r: bool)
    ensures
        r == spec_file_is_item(crate::syntax::item_views(items@)),
{
    let ghost views = crate::syntax::item_views(items@);
    if items.len() == 0 {
        return false;
    }
    let mut k: usize = 0;
    while k < items.len()
        invariant
            views == crate::syntax::item_views(items@),
            views.len() == items@.len(),
            views.len() > 0,
            k <= items@.len(),
            forall|j: int| 0 <= j < k ==> #[trigger] spec_is_stmt_like_macro(views[j]),
        decreases items@.len() - k,
    {
        if !is_stmt_like_macro(&items[k]) {
            assert(views[k as int] == items@[k as int]@);
            return true;
        }
        k = k + 1;
    }
    false
}

/// Whether `src` is one item, or a file of items not all of which are macro
/// invocations.
fn is_item(src: &str) -> (r: bool)
    ensures
        r == spec_is_item(src@),
{
    if let Some(item) = parse_item(src) {
        return !is_stmt_like_macro(&item);
    }
    match parse_file(src) {
        Some(items) => file_is_item(&items),
        None => false,
    }
}

/// The item text to replay at crate root, if `src` is an item. A braced item
/// with an extra trailing `;` (`struct A { n: u8 };`) is not a valid
/// crate-level item, so that semicolon is dropped when the rest parses as an
/// item; semicolons that belong to the item (`struct Foo;`) stay.
pub fn item_source(src: &str) -> (r: Option<String>)
    ensures
        opt_chars(r) == spec_item_source(src@),
{
    if is_item(src) {
        return Some(string_from_chars(str_chars(src).as_slice()));
    }
    let chars = str_chars(src);
    let no_semis = trimmed_end_matches(chars.as_slice(), ';');
    let stripped = trimmed_end(no_semis.as_slice());
    let stripped_str = string_from_chars(stripped.as_slice());
    if stripped.len() < chars.len() && is_item(stripped_str.as_str()) {
        Some(stripped_str)
    } else {
        None
    }
}

/// The statement `src` parses as, trimmed, first as written and then with a
/// `;` appended.
fn parses_as_stmt(src: &str) -> (r: Option<StmtShape>)
    ensures
        match r {
            Some(s) => spec_parses_as_stmt(src@) == Some(s@),
            None => spec_parses_as_stmt(src@) is None,
        },
{
    let t = trimmed(src);
    let mut ts = string_from_chars(t.as_slice());
    match parse_stmt(ts.as_str()) {
        Some(s) => Some(s),
        None => {
            push_char(&mut ts, ';');
            parse_stmt(ts.as_str())
        },
    }
}

/// Whether the parsed expression is an assignment, plain or compound.
pub fn is_assign_expr(e: &ExprShape) -> (r: bool)
    ensures
        r == spec_is_assign_expr(e@),
{
    match e {
        ExprShape::Assign => true,
        ExprShape::Binary { op } => {
            let o = str_chars(op.as_str());
            let o = o.as_slice();
            chars_eq_str(o, "+=") || chars_eq_str(o, "-=") || chars_eq_str(o, "*=")
                || chars_eq_str(o, "/=") || chars_eq_str(o, "%=") || chars_eq_str(o, "^=")
                || chars_eq_str(o, "&=") || chars_eq_str(o, "|=") || chars_eq_str(o, "<<=")
                || chars_eq_str(o, ">>=")
        },
        _ => false,
    }
}

/// `let` or `let mut` binding, semicolon optional.
pub fn is_let_binding(src: &str) -> (r: bool)
    ensures
        r == spec_is_let_binding(src@),
{
    match parses_as_stmt(src) {
        Some(StmtShape::Local) => true,
        _ => false,
    }
}

/// An assignment, `a = 1` or `a += 1`, semicolon optional.
fn is_assignment(src: &str) -> (r: bool)
    ensures
        r == spec_is_assignment(src@),
{
    match parses_as_stmt(src) {
        Some(StmtShape::Expr(e)) => is_assign_expr(&e),
        _ => false,
    }
}

/// A method call, `a.push(1)`, semicolon optional.
fn is_method_call(src: &str) -> (r: bool)
    ensures
        r == spec_is_method_call(src@),
{
    match parses_as_stmt(src) {
        Some(StmtShape::Expr(ExprShape::MethodCall)) => true,
        _ => false,
    }
}

/// `let` / `let mut`, assignment (`a = 1`, `a += 1`), or a method call
/// (`a.push(1)`). These are replayed on later evaluations so collections can
/// grow.
pub fn is_persistent_binding(src: &str) -> (r: bool)
    ensures
        r == spec_is_persistent_binding(src@),
{
    is_let_binding(src) || is_assignment(src) || is_method_call(src)
}

/// A persistent binding, or a statement ending in `;`.
fn is_statement(src: &str) -> (r: bool)
    ensures
        r == spec_is_statement(src@),
{
    if is_persistent_binding(src) {
        return true;
    }
    let chars = str_chars(src);
    chars_end_with(chars.as_slice(), ';') && parse_stmt(src).is_some()
}

/// Classifies a complete snippet: an item when it parses as one (after
/// dropping a stray trailing `;`), a statement when it is a persistent
/// binding or a statement ending in `;`, and an expression otherwise. The
/// text kept is the trimmed snippet.
pub fn classify_input(raw: &str) -> (r: InputKind)
    ensures
        r@ == classify(raw@),
{
    let t = trimmed(raw);
    let ts = string_from_chars(t.as_slice());
    if let Some(item) = item_source(ts.as_str()) {
        return InputKind::Item(item);
    }
    if is_statement(ts.as_str()) {
        return InputKind::Statement(ts);
    }
    InputKind::Expression(ts)
}


// ---------------------------------------------------------------------------
// Laws
// ---------------------------------------------------------------------------

/// The text replayed for an item always parses as an item.
pub proof fn law_item_source_is_an_item(src: Seq<char>)
    ensures
        spec_item_source(src) matches Some(item) ==> spec_is_item(item),
{
}

/// A snippet classifies as an expression only when it is not a persistent
/// binding: bindings, assignments and method calls are replayed as
/// statements.
pub proof fn law_expression_is_not_persistent_binding(raw: Seq<char>)
    ensures
        classify(raw) matches InputKindView::Expression(code) ==> !spec_is_persistent_binding(
            code,
        ),
{
}

/// The text kept for a snippet is the snippet without surrounding
/// whitespace; for an item, possibly also without trailing semicolons.
pub proof fn law_classified_text_is_trimmed(raw: Seq<char>)
    ensures
        !(classify(raw) is Item) ==> classify(raw).code() == trim(raw),
        classify(raw) is Item ==> classify(raw).code() == trim(raw) || classify(raw).code()
            == trim_end(trim_end_matches(trim(raw), ';')),
{
}

/// Surrounding whitespace never changes how a snippet is classified, nor
/// the text kept for it.
pub proof fn law_classify_ignores_surrounding_whitespace(raw: Seq<char>)
    ensures
        classify(trim(raw)) == classify(raw),
{
    law_trim_is_idempotent(raw);
}

/// Only macro invocations behave like statements: no other parsed item
/// does.
pub proof fn law_only_macro_invocations_are_statement_like(item: ItemShapeView)
    requires
        !(item is Macro),
    ensures
        !spec_is_stmt_like_macro(item),
{
}

/// A snippet that `syn` parses as one item other than a macro (a function,
/// struct, `impl` block, `const`, ..) is classified as an item and kept
/// whole, trimmed, for the rest of the session.
pub proof fn law_non_macro_items_are_items(raw: Seq<char>)
    requires
        syn_item(trim(raw)) matches Some(ItemShapeView::Other { .. }),
    ensures
        classify(raw) == InputKindView::Item(trim(raw)),
{
}

} // verus!
