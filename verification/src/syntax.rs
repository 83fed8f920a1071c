//! What the front end reads of `syn`'s parse results.
//!
//! Parsing Rust is `syn`'s work: each call below hands text to one of its
//! parsers and keeps, as plain values, what it parsed: the macro path and
//! defined name of a macro item, the token text of any other item, the name
//! of a function, struct or enum, the shape of a statement. Which of these
//! matter is decided by the verified code that reads them. The results depend on the text alone, so each is named by an
//! uninterpreted function of the text.
use vstd::prelude::*;
use quote::ToTokens;
use syn::{Expr, Item, Stmt};

verus! {

/// The characters of an optional string.
pub open spec fn opt_chars(o: Option<String>) -> Option<Seq<char>> {
    match o {
        Some(s) => Some(s@),
        None => None,
    }
}

/// What the front end reads of a parsed item.
pub enum ItemShape {
    /// A macro invocation or `macro_rules!` definition: the macro's path when
    /// that path is a single identifier, and the name the item defines.
    Macro { path: Option<String>, defines: Option<String> },
    /// Any other item, kept as the text of its tokens; `syn` is asked again
    /// which kind of item that text is (see [`fn_name`]).
    Other { tokens: String },
}

/// The mathematical value of an [`ItemShape`].
pub enum ItemShapeView {
    Macro { path: Option<Seq<char>>, defines: Option<Seq<char>> },
    Other { tokens: Seq<char> },
}

impl View for ItemShape {
    type V = ItemShapeView;

    open spec fn view(&self) -> ItemShapeView {
        match self {
            ItemShape::Macro { path, defines } => ItemShapeView::Macro {
                path: opt_chars(*path),
                defines: opt_chars(*defines),
            },
            ItemShape::Other { tokens } => ItemShapeView::Other { tokens: tokens@ },
        }
    }
}

/// What the front end reads of a parsed expression statement.
pub enum ExprShape {
    /// `a = b`.
    Assign,
    /// A binary operation, with the text of its operator (`+`, `+=`, `<<=`, ..).
    Binary { op: String },
    /// `a.f(..)`.
    MethodCall,
    /// Any other expression.
    Other,
}

/// The mathematical value of an [`ExprShape`].
pub enum ExprShapeView {
    Assign,
    Binary { op: Seq<char> },
    MethodCall,
    Other,
}

impl View for ExprShape {
    type V = ExprShapeView;

    open spec fn view(&self) -> ExprShapeView {
        match self {
            ExprShape::Assign => ExprShapeView::Assign,
            ExprShape::Binary { op } => ExprShapeView::Binary { op: op@ },
            ExprShape::MethodCall => ExprShapeView::MethodCall,
            ExprShape::Other => ExprShapeView::Other,
        }
    }
}

/// What the front end reads of a parsed statement.
pub enum StmtShape {
    /// A `let` binding.
    Local,
    /// An expression statement, with or without its semicolon.
    Expr(ExprShape),
    /// An item or a macro statement.
    Other,
}

/// The mathematical value of a [`StmtShape`].
pub enum StmtShapeView {
    Local,
    Expr(ExprShapeView),
    Other,
}

impl View for StmtShape {
    type V = StmtShapeView;

    open spec fn view(&self) -> StmtShapeView {
        match self {
            StmtShape::Local => StmtShapeView::Local,
            StmtShape::Expr(e) => StmtShapeView::Expr(e@),
            StmtShape::Other => StmtShapeView::Other,
        }
    }
}

/// The views of a sequence of item shapes.
pub open spec fn item_views(items: Seq<ItemShape>) -> Seq<ItemShapeView> {
    items.map_values(|i: ItemShape| i@)
}

/// What `syn::parse_str::<syn::Item>` makes of `src`: `None` when it is not
/// exactly one item.
pub uninterp spec fn syn_item(src: Seq<char>) -> Option<ItemShapeView>;

/// What `syn::parse_str::<syn::File>` makes of `src`: the items of the file,
/// or `None` when it is not a file of items.
pub uninterp spec fn syn_file(src: Seq<char>) -> Option<Seq<ItemShapeView>>;

/// What `syn::parse_str::<syn::Stmt>` makes of `src`: `None` when it is not
/// exactly one statement.
pub uninterp spec fn syn_stmt(src: Seq<char>) -> Option<StmtShapeView>;

/// `syn::parse_str::<syn::Item>`: parses `src` as one item and keeps its
/// shape. The contract claims only that the result is a function of the text.
#[verifier::external_body]
pub(crate) fn parse_item(src: &str) -> (r: Option<ItemShape>)
    ensures
        match r {
            Some(item) => syn_item(src@) == Some(item@),
            None => syn_item(src@) is None,
        },
{
    let item = syn::parse_str::<Item>(src).ok()?;
    Some(match item {
        Item::Macro(m) => ItemShape::Macro {
            path: m.mac.path.get_ident().map(ToString::to_string),
            defines: m.ident.as_ref().map(ToString::to_string),
        },
        other => ItemShape::Other { tokens: other.to_token_stream().to_string() },
    })
}

/// `syn::parse_str::<syn::File>`: parses `src` as a file and keeps the shape
/// of each of its items, in order. The contract claims only that the result
/// is a function of the text.
#[verifier::external_body]
pub(crate) fn parse_file(src: &str) -> (r: Option<Vec<ItemShape>>)
    ensures
        match r {
            Some(items) => syn_file(src@) == Some(item_views(items@)),
            None => syn_file(src@) is None,
        },
{
    let file = syn::parse_str::<syn::File>(src).ok()?;
    Some(file.items.iter().map(|item| match item {
        Item::Macro(m) => ItemShape::Macro {
            path: m.mac.path.get_ident().map(ToString::to_string),
            defines: m.ident.as_ref().map(ToString::to_string),
        },
        other => ItemShape::Other { tokens: other.to_token_stream().to_string() },
    }).collect())
}

/// What `syn::parse_str::<syn::ItemFn>` makes of `src`: the function's name,
/// or `None` when `src` is not exactly one function.
pub uninterp spec fn syn_fn_name(src: Seq<char>) -> Option<Seq<char>>;

/// What `syn::parse_str::<syn::ItemStruct>` makes of `src`: the struct's
/// name, or `None` when `src` is not exactly one struct.
pub uninterp spec fn syn_struct_name(src: Seq<char>) -> Option<Seq<char>>;

/// What `syn::parse_str::<syn::ItemEnum>` makes of `src`: the enum's name,
/// or `None` when `src` is not exactly one enum.
pub uninterp spec fn syn_enum_name(src: Seq<char>) -> Option<Seq<char>>;

/// `syn::parse_str::<syn::ItemFn>`: the name of the function that `src` is.
/// The contract claims only that the result is a function of the text.
#[verifier::external_body]
pub(crate) fn fn_name(src: &str) -> (r: Option<String>)
    ensures
        opt_chars(r) == syn_fn_name(src@),
{
    syn::parse_str::<syn::ItemFn>(src).ok().map(|f| f.sig.ident.to_string())
}

/// `syn::parse_str::<syn::ItemStruct>`: the name of the struct that `src`
/// is. The contract claims only that the result is a function of the text.
#[verifier::external_body]
pub(crate) fn struct_name(src: &str) -> (r: Option<String>)
    ensures
        opt_chars(r) == syn_struct_name(src@),
{
    syn::parse_str::<syn::ItemStruct>(src).ok().map(|s| s.ident.to_string())
}

/// `syn::parse_str::<syn::ItemEnum>`: the name of the enum that `src` is.
/// The contract claims only that the result is a function of the text.
#[verifier::external_body]
pub(crate) fn enum_name(src: &str) -> (r: Option<String>)
    ensures
        opt_chars(r) == syn_enum_name(src@),
{
    syn::parse_str::<syn::ItemEnum>(src).ok().map(|e| e.ident.to_string())
}

/// `syn::parse_str::<syn::Stmt>`: parses `src` as one statement and keeps
/// its shape; a binary operator is kept as its token text. The contract
/// claims only that the result is a function of the text.
#[verifier::external_body]
pub(crate) fn parse_stmt(src: &str) -> (r: Option<StmtShape>)
    ensures
        match r {
            Some(stmt) => syn_stmt(src@) == Some(stmt@),
            None => syn_stmt(src@) is None,
        },
{
    let stmt = syn::parse_str::<Stmt>(src).ok()?;
    Some(match stmt {
        Stmt::Local(_) => StmtShape::Local,
        Stmt::Expr(e, _) => StmtShape::Expr(match e {
            Expr::Assign(_) => ExprShape::Assign,
            Expr::Binary(b) => ExprShape::Binary { op: b.op.to_token_stream().to_string() },
            Expr::MethodCall(_) => ExprShape::MethodCall,
            _ => ExprShape::Other,
        }),
        _ => StmtShape::Other,
    })
}

} // verus!
