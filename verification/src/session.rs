//! The evaluator's session: the items and bindings replayed on every
//! evaluation, and the counter that names each compiled library.
//!
//! Evaluating a snippet alternates decisions (here) with outside work done
//! by the caller: [`Session::prepare`] classifies the snippet and generates
//! the file to compile; the caller compiles it and reports success with
//! [`Session::compiled`]; after loading and running the library it reports
//! the snippet as run with [`Session::record`], which updates the history.
use vstd::prelude::*;
use crate::syntax::{
    ItemShape, ItemShapeView, syn_file, parse_file, item_views, opt_chars, syn_fn_name,
    syn_struct_name, syn_enum_name, fn_name, struct_name, enum_name,
};
use crate::parser::{
    InputKind, InputKindView, classify, classify_input, is_persistent_binding,
    spec_is_persistent_binding,
};
use crate::generator::{
    GeneratedSource, generate_source, generated, generated_len, before_snippet, line_after, texts,
};
use crate::text::{str_chars, chars_eq};

verus! {

// ---------------------------------------------------------------------------
// Item keys and conflicts
// ---------------------------------------------------------------------------

/// The name of a function, struct or enum that the item text `t` is: these
/// items are replaced by a later item of the same name.
pub open spec fn named_item_key(t: Seq<char>) -> Option<Seq<char>> {
    match syn_fn_name(t) {
        Some(n) => Some(n),
        None => match syn_struct_name(t) {
            Some(n) => Some(n),
            None => syn_enum_name(t),
        },
    }
}

/// The names an item defines for replacement: that of a function, struct
/// or enum, or the macro a `macro_rules!` item defines. Other items
/// (`const`, `static`, `trait`, `type`, `mod`, `impl`, ..) define none.
pub open spec fn item_key(item: ItemShapeView) -> Seq<Seq<char>> {
    match item {
        ItemShapeView::Other { tokens } => match named_item_key(tokens) {
            Some(n) => seq![n],
            None => Seq::empty(),
        },
        ItemShapeView::Macro { defines: Some(n), .. } => seq![n],
        _ => Seq::empty(),
    }
}

/// The names that the items define: functions, structs, enums and
/// `macro_rules!` macros.
pub open spec fn item_names(items: Seq<ItemShapeView>) -> Seq<Seq<char>>
    decreases items.len(),
{
    if items.len() == 0 {
        Seq::empty()
    } else {
        item_names(items.drop_last()) + item_key(items.last())
    }
}

/// The names that the item text `src` defines; none when it is not a file
/// of items.
pub open spec fn spec_item_keys(src: Seq<char>) -> Seq<Seq<char>> {
    match syn_file(src) {
        Some(items) => item_names(items),
        None => Seq::empty(),
    }
}

/// Whether the two item texts define a common name.
pub open spec fn conflict(a: Seq<char>, b: Seq<char>) -> bool {
    exists|k: int|
        0 <= k < spec_item_keys(a).len() && spec_item_keys(b).contains(
            #[trigger] spec_item_keys(a)[k],
        )
}

/// The items of `history` that define none of the names that `new` defines,
/// in order.
pub open spec fn kept_items(history: Seq<Seq<char>>, new: Seq<char>) -> Seq<Seq<char>>
    decreases history.len(),
{
    if history.len() == 0 {
        Seq::empty()
    } else {
        kept_items(history.drop_last(), new) + if conflict(history.last(), new) {
            Seq::empty()
        } else {
            seq![history.last()]
        }
    }
}

/// No two items define a common name.
pub open spec fn conflict_free(items: Seq<Seq<char>>) -> bool {
    forall|i: int, j: int|
        0 <= i < j < items.len() ==> !conflict(#[trigger] items[i], #[trigger] items[j])
}

/// The name of a function, struct or enum that the item text `t` is.
fn named_key(t: &str) -> (r: Option<String>)
    ensures
        opt_chars(r) == named_item_key(t@),
{
    if let Some(n) = fn_name(t) {
        return Some(n);
    }
    if let Some(n) = struct_name(t) {
        return Some(n);
    }
    enum_name(t)
}

/// The names that parsed items define, in order.
pub fn names_of(items: &Vec<ItemShape>) -> (r: Vec<String>)
    ensures
        texts(r@) == item_names(item_views(items@)),
{
    let mut r: Vec<String> = Vec::new();
    let mut i: usize = 0;
    while i < items.len()
        invariant
            i <= items@.len(),
            texts(r@) == item_names(item_views(items@.subrange(0, i as int))),
        decreases items@.len() - i,
    {
        let ghost before = r@;
        match &items[i] {
            ItemShape::Other { tokens } => {
                if let Some(n) = named_key(tokens.as_str()) {
                    r.push(n);
                }
            },
            ItemShape::Macro { defines: Some(n), .. } => r.push(n.clone()),
            _ => {},
        }
        i = i + 1;
        proof {
            let v = item_views(items@.subrange(0, i as int));
            assert(v.drop_last() =~= item_views(items@.subrange(0, i - 1)));
            assert(v.last() == items@[i - 1]@);
            assert(texts(r@) =~= item_names(v));
        }
    }
    assert(items@.subrange(0, i as int) =~= items@);
    r
}

/// The names that the item text `src` defines.
pub fn item_keys(src: &str) -> (r: Vec<String>)
    ensures
        texts(r@) == spec_item_keys(src@),
{
    match parse_file(src) {
        Some(items) => names_of(&items),
        None => {
            let r: Vec<String> = Vec::new();
            assert(texts(r@) =~= Seq::<Seq<char>>::empty());
            r
        },
    }
}

/// Whether some name of `a` is also a name of `b`.
fn share_name(a: &Vec<String>, b: &Vec<String>) -> (r: bool)
    ensures
        r == exists|k: int| 0 <= k < a@.len() && texts(b@).contains(#[trigger] texts(a@)[k]),
{
    let mut i: usize = 0;
    while i < a.len()
        invariant
            i <= a@.len(),
            forall|k: int| 0 <= k < i ==> !texts(b@).contains(#[trigger] texts(a@)[k]),
        decreases a@.len() - i,
    {
        let ai = str_chars(a[i].as_str());
        let mut j: usize = 0;
        while j < b.len()
            invariant
                i < a@.len(),
                ai@ == a@[i as int]@,
                j <= b@.len(),
                forall|k: int| 0 <= k < j ==> texts(b@)[k] != a@[i as int]@,
            decreases b@.len() - j,
        {
            let bj = str_chars(b[j].as_str());
            if chars_eq(ai.as_slice(), bj.as_slice()) {
                assert(texts(b@)[j as int] == texts(a@)[i as int]);
                return true;
            }
            j = j + 1;
        }
        assert(!texts(b@).contains(texts(a@)[i as int]));
        i = i + 1;
    }
    false
}

/// The kept items that define none of the names of the new item `new`:
/// what is compiled alongside it.
pub fn items_without_conflicts(history: &[String], new: &str) -> (r: Vec<String>)
    ensures
        texts(r@) == kept_items(texts(history@), new@),
{
    let keys = item_keys(new);
    let mut r: Vec<String> = Vec::new();
    let mut i: usize = 0;
    while i < history.len()
        invariant
            i <= history@.len(),
            texts(keys@) == spec_item_keys(new@),
            texts(r@) == kept_items(texts(history@.subrange(0, i as int)), new@),
        decreases history@.len() - i,
    {
        let old_keys = item_keys(history[i].as_str());
        let clash = keys.len() > 0 && share_name(&old_keys, &keys);
        proof {
            let h = texts(history@.subrange(0, i + 1));
            assert(h.drop_last() =~= texts(history@.subrange(0, i as int)));
            assert(h.last() == history@[i as int]@);
            if keys@.len() == 0 {
                assert(!conflict(history@[i as int]@, new@));
            }
        }
        if !clash {
            r.push(history[i].clone());
        }
        i = i + 1;
        assert(texts(r@) =~= kept_items(texts(history@.subrange(0, i as int)), new@));
    }
    assert(history@.subrange(0, i as int) =~= history@);
    r
}

/// Replaces the kept items that define any of the names of `new`, and adds
/// `new` at the end.
pub fn upsert_item(history: &mut Vec<String>, new: String)
    ensures
        texts(final(history)@) == kept_items(texts(old(history)@), new@).push(new@),
{
    let mut kept = items_without_conflicts(history.as_slice(), new.as_str());
    kept.push(new);
    *history = kept;
    assert(texts(history@) =~= kept_items(texts(old(history)@), new@).push(new@));
}


// ---------------------------------------------------------------------------
// Laws of the kept items
// ---------------------------------------------------------------------------

/// Every item kept beside a new item defines none of the new item's names.
pub proof fn law_kept_items_do_not_conflict(history: Seq<Seq<char>>, new: Seq<char>)
    ensures
        forall|k: int|
            0 <= k < kept_items(history, new).len() ==> !conflict(
                #[trigger] kept_items(history, new)[k],
                new,
            ),
    decreases history.len(),
{
    if history.len() > 0 {
        let h = history.drop_last();
        law_kept_items_do_not_conflict(h, new);
        let kh = kept_items(h, new);
        let kept = kept_items(history, new);
        assert forall|k: int| 0 <= k < kept.len() implies !conflict(#[trigger] kept[k], new) by {
            if k < kh.len() {
                assert(kept[k] == kh[k]);
            } else {
                assert(kept[k] == history.last());
            }
        }
    }
}

/// The kept items are items of the history, and every item of the history
/// that defines none of the new item's names is kept.
pub proof fn law_kept_items_are_the_non_conflicting(history: Seq<Seq<char>>, new: Seq<char>)
    ensures
        forall|k: int|
            0 <= k < kept_items(history, new).len() ==> history.contains(
                #[trigger] kept_items(history, new)[k],
            ),
        forall|j: int|
            0 <= j < history.len() && !conflict(#[trigger] history[j], new) ==> kept_items(
                history,
                new,
            ).contains(history[j]),
    decreases history.len(),
{
    if history.len() > 0 {
        let h = history.drop_last();
        law_kept_items_are_the_non_conflicting(h, new);
        let kh = kept_items(h, new);
        let kept = kept_items(history, new);
        assert forall|k: int| 0 <= k < kept.len() implies history.contains(#[trigger] kept[k]) by {
            if k < kh.len() {
                assert(kept[k] == kh[k]);
                let j = choose|j: int| 0 <= j < h.len() && h[j] == kh[k];
                assert(history[j] == h[j]);
            } else {
                assert(kept[k] == history.last());
                assert(history[history.len() - 1] == history.last());
            }
        }
        assert forall|j: int| 0 <= j < history.len() && !conflict(#[trigger] history[j], new)
            implies kept.contains(history[j]) by {
            if j < h.len() {
                assert(h[j] == history[j]);
                let k = choose|k: int| 0 <= k < kh.len() && kh[k] == h[j];
                assert(kept[k] == kh[k]);
            } else {
                assert(kept[kept.len() - 1] == history.last());
            }
        }
    }
}

/// Dropping the last item keeps a history conflict-free.
proof fn lemma_conflict_free_prefix(items: Seq<Seq<char>>)
    requires
        conflict_free(items),
        items.len() > 0,
    ensures
        conflict_free(items.drop_last()),
{
    let p = items.drop_last();
    assert forall|i: int, j: int| 0 <= i < j < p.len() implies !conflict(
        #[trigger] p[i],
        #[trigger] p[j],
    ) by {
        assert(p[i] == items[i] && p[j] == items[j]);
    }
}

/// Keeping the non-conflicting items of a conflict-free history leaves it
/// conflict-free.
pub proof fn law_kept_items_conflict_free(history: Seq<Seq<char>>, new: Seq<char>)
    requires
        conflict_free(history),
    ensures
        conflict_free(kept_items(history, new)),
    decreases history.len(),
{
    if history.len() > 0 {
        let h = history.drop_last();
        lemma_conflict_free_prefix(history);
        law_kept_items_conflict_free(h, new);
        law_kept_items_are_the_non_conflicting(h, new);
        let kh = kept_items(h, new);
        let kept = kept_items(history, new);
        if !conflict(history.last(), new) {
            assert forall|i: int, j: int| 0 <= i < j < kept.len() implies !conflict(
                #[trigger] kept[i],
                #[trigger] kept[j],
            ) by {
                if j < kh.len() {
                    assert(kept[i] == kh[i] && kept[j] == kh[j]);
                } else {
                    assert(kept[i] == kh[i]);
                    assert(kh.contains(kh[i]));
                    let m = choose|m: int| 0 <= m < h.len() && h[m] == kh[i];
                    assert(history[m] == h[m]);
                    assert(history[history.len() - 1] == history.last());
                    assert(!conflict(history[m], history[history.len() - 1]));
                }
            }
        } else {
            assert(kept =~= kh);
        }
    }
}

/// Adding an item after the kept items that do not conflict with it keeps
/// the items conflict-free: at most one kept item defines each name.
pub proof fn law_upsert_keeps_names_unique(history: Seq<Seq<char>>, new: Seq<char>)
    requires
        conflict_free(history),
    ensures
        conflict_free(kept_items(history, new).push(new)),
{
    law_kept_items_conflict_free(history, new);
    law_kept_items_do_not_conflict(history, new);
    let kept = kept_items(history, new);
    let all = kept.push(new);
    assert forall|i: int, j: int| 0 <= i < j < all.len() implies !conflict(
        #[trigger] all[i],
        #[trigger] all[j],
    ) by {
        assert(all[i] == kept[i]);
        if j < kept.len() {
            assert(all[j] == kept[j]);
        } else {
            assert(all[j] == new);
        }
    }
}

// ---------------------------------------------------------------------------
// The session
// ---------------------------------------------------------------------------

/// The mathematical value of a [`Session`].
pub struct SessionView {
    /// The kept items, in the order they are replayed.
    pub items: Seq<Seq<char>>,
    /// The persistent bindings, in the order they are replayed.
    pub bindings: Seq<Seq<char>>,
    /// The number of libraries compiled so far; it names the next one.
    pub counter: nat,
}

/// The items compiled with a snippet of the given kind: for an item, the
/// kept items that do not conflict with it; otherwise all kept items.
pub open spec fn compiled_items(v: SessionView, kind: InputKindView) -> Seq<Seq<char>> {
    match kind {
        InputKindView::Item(code) => kept_items(v.items, code),
        _ => v.items,
    }
}

/// The session after a snippet of the given kind has run: an item replaces
/// the items it conflicts with and is kept; a persistent binding is kept;
/// anything else leaves the history as it was.
pub open spec fn recorded(v: SessionView, kind: InputKindView) -> SessionView {
    match kind {
        InputKindView::Item(code) => SessionView {
            items: kept_items(v.items, code).push(code),
            ..v
        },
        InputKindView::Statement(code) => if spec_is_persistent_binding(code) {
            SessionView { bindings: v.bindings.push(code), ..v }
        } else {
            v
        },
        InputKindView::Expression(code) => if spec_is_persistent_binding(code) {
            SessionView { bindings: v.bindings.push(code), ..v }
        } else {
            v
        },
    }
}

/// What a snippet evaluates as: its kind, the file to compile, and the
/// counter that names the library.
pub struct Evaluation {
    pub kind: InputKind,
    pub source: GeneratedSource,
    pub counter: usize,
}

/// The items and bindings replayed on every evaluation, and the counter
/// that names each compiled library.
pub struct Session {
    item_history: Vec<String>,
    binding_history: Vec<String>,
    counter: usize,
}

impl View for Session {
    type V = SessionView;

    closed spec fn view(&self) -> SessionView {
        SessionView {
            items: texts(self.item_history@),
            bindings: texts(self.binding_history@),
            counter: self.counter as nat,
        }
    }
}

impl Session {
    /// No two kept items define a common name.
    #[verifier::type_invariant]
    spec fn names_unique(&self) -> bool {
        conflict_free(texts(self.item_history@))
    }

    /// An empty session.
    pub fn new() -> (s: Session)
        ensures
            s@.items == Seq::<Seq<char>>::empty(),
            s@.bindings == Seq::<Seq<char>>::empty(),
            s@.counter == 0,
            conflict_free(s@.items),
    {
        let s = Session { item_history: Vec::new(), binding_history: Vec::new(), counter: 0 };
        assert(texts(s.item_history@) =~= Seq::<Seq<char>>::empty());
        assert(texts(s.binding_history@) =~= Seq::<Seq<char>>::empty());
        s
    }

    /// The number that names the next compiled library.
    pub fn counter(&self) -> (c: usize)
        ensures
            c == self@.counter,
    {
        self.counter
    }

    /// Records that a library was compiled: the next one gets the next number.
    pub fn compiled(&mut self)
        requires
            old(self)@.counter < usize::MAX,
        ensures
            final(self)@ == (SessionView { counter: old(self)@.counter + 1, ..old(self)@ }),
    {
        proof {
            use_type_invariant(&*self);
        }
        self.counter = self.counter + 1;
    }

    /// Classifies a snippet and generates the file that evaluates it after
    /// the kept items (for an item, those that do not conflict with it) and
    /// bindings; the library it compiles to is named by the counter. `None`
    /// only when that file would hold `usize::MAX` characters or more.
    pub fn prepare(&self, snippet: &str) -> (r: Option<Evaluation>)
        ensures
            match r {
                Some(e) => {
                    &&& e.kind@ == classify(snippet@)
                    &&& e.source.source@ == generated(
                        e.kind@,
                        compiled_items(self@, e.kind@),
                        self@.bindings,
                    )
                    &&& e.source.source@.len() < usize::MAX
                    &&& e.source.snippet_start_line == line_after(
                        before_snippet(e.kind@, compiled_items(self@, e.kind@), self@.bindings),
                    )
                    &&& e.counter == self@.counter
                },
                None => generated(
                    classify(snippet@),
                    compiled_items(self@, classify(snippet@)),
                    self@.bindings,
                ).len() >= usize::MAX,
            },
    {
        let kind = classify_input(snippet);
        let kept = match &kind {
            InputKind::Item(code) => items_without_conflicts(
                self.item_history.as_slice(),
                code.as_str(),
            ),
            _ => self.item_history.clone(),
        };
        assert(texts(kept@) == compiled_items(self@, kind@));
        match generated_len(&kind, kept.as_slice(), self.binding_history.as_slice()) {
            Some(n) => {
                if n == usize::MAX {
                    return None;
                }
            },
            None => return None,
        }
        let source = generate_source(&kind, kept.as_slice(), self.binding_history.as_slice());
        Some(Evaluation { kind, source, counter: self.counter })
    }

    /// Records that a snippet of the given kind has run.
    pub fn record(&mut self, kind: &InputKind)
        ensures
            final(self)@ == recorded(old(self)@, kind@),
            conflict_free(final(self)@.items),
    {
        proof {
            use_type_invariant(&*self);
        }
        match kind {
            InputKind::Item(code) => {
                proof {
                    law_upsert_keeps_names_unique(texts(self.item_history@), code@);
                }
                let mut items = items_without_conflicts(
                    self.item_history.as_slice(),
                    code.as_str(),
                );
                items.push(code.clone());
                assert(texts(items@) =~= kept_items(texts(self.item_history@), code@).push(code@));
                self.item_history = items;
            },
            InputKind::Statement(code) | InputKind::Expression(code) => {
                if is_persistent_binding(code.as_str()) {
                    let mut bindings = self.binding_history.clone();
                    bindings.push(code.clone());
                    assert(texts(bindings@) =~= texts(self.binding_history@).push(code@));
                    self.binding_history = bindings;
                }
            },
        }
        proof {
            use_type_invariant(&*self);
        }
    }
}

/// How an evaluation ended.
#[derive(Debug, Clone, Copy, PartialEq, Eq)]
pub enum Outcome {
    /// `rustc` rejected the generated file.
    CompileFailed,
    /// The library was compiled but could not be loaded or run.
    NotRun,
    /// The snippet ran.
    Ran,
}

/// The session after an evaluation of a snippet of the given kind ended:
/// a failed compile changes nothing; a compiled library advances the
/// counter; a snippet that ran is also recorded.
pub open spec fn concluded(v: SessionView, kind: InputKindView, outcome: Outcome) -> SessionView {
    match outcome {
        Outcome::CompileFailed => v,
        Outcome::NotRun => SessionView { counter: v.counter + 1, ..v },
        Outcome::Ran => recorded(SessionView { counter: v.counter + 1, ..v }, kind),
    }
}

impl Session {
    /// Ends the evaluation of a snippet of the given kind with its outcome.
    pub fn conclude(&mut self, kind: &InputKind, outcome: Outcome)
        requires
            outcome == Outcome::CompileFailed || old(self)@.counter < usize::MAX,
        ensures
            final(self)@ == concluded(old(self)@, kind@, outcome),
            conflict_free(final(self)@.items),
    {
        proof {
            use_type_invariant(&*self);
        }
        match outcome {
            Outcome::CompileFailed => {},
            Outcome::NotRun => {
                self.compiled();
            },
            Outcome::Ran => {
                self.compiled();
                self.record(kind);
            },
        }
        proof {
            use_type_invariant(&*self);
        }
    }
}

/// An evaluation that fails to compile leaves the session as it was; one
/// that compiles but does not run only advances the counter.
pub proof fn law_failed_evaluation_keeps_history(v: SessionView, kind: InputKindView)
    ensures
        concluded(v, kind, Outcome::CompileFailed) == v,
        concluded(v, kind, Outcome::NotRun).items == v.items,
        concluded(v, kind, Outcome::NotRun).bindings == v.bindings,
        concluded(v, kind, Outcome::NotRun).counter == v.counter + 1,
{
}

/// After an item has run, the kept items are exactly those it was compiled
/// with, followed by the item itself.
pub proof fn law_record_keeps_compiled_items(v: SessionView, code: Seq<char>)
    ensures
        recorded(v, InputKindView::Item(code)).items == compiled_items(
            v,
            InputKindView::Item(code),
        ).push(code),
{
}

/// Statements and expressions never change the kept items, and only
/// persistent bindings are added to the replayed bindings.
pub proof fn law_record_non_items(v: SessionView, kind: InputKindView)
    requires
        !(kind is Item),
    ensures
        recorded(v, kind).items == v.items,
        recorded(v, kind).counter == v.counter,
        recorded(v, kind).bindings == if spec_is_persistent_binding(kind.code()) {
            v.bindings.push(kind.code())
        } else {
            v.bindings
        },
{
}

/// Recording an item changes only the kept items: the persistent bindings
/// and the counter stay as they were, so later snippets still replay the
/// bindings after the new item.
pub proof fn law_record_item_keeps_bindings(v: SessionView, code: Seq<char>)
    ensures
        recorded(v, InputKindView::Item(code)).bindings == v.bindings,
        recorded(v, InputKindView::Item(code)).counter == v.counter,
{
}

/// Recording never drops a binding: the bindings afterwards are those
/// before, possibly followed by the snippet itself.
pub proof fn law_record_never_drops_bindings(v: SessionView, kind: InputKindView)
    ensures
        recorded(v, kind).bindings == v.bindings || recorded(v, kind).bindings == v.bindings.push(
            kind.code(),
        ),
{
}

/// The items kept beside a new item are exactly the history with the items
/// that conflict with it removed: each other item once, in order. So there
/// are never more of them than items in the history.
pub proof fn law_kept_items_are_the_history_filtered(history: Seq<Seq<char>>, new: Seq<char>)
    ensures
        kept_items(history, new) == history.filter(|x: Seq<char>| !conflict(x, new)),
        kept_items(history, new).len() <= history.len(),
    decreases history.len(),
{
    reveal(Seq::filter);
    let pred = |x: Seq<char>| !conflict(x, new);
    if history.len() > 0 {
        law_kept_items_are_the_history_filtered(history.drop_last(), new);
        let sub = history.drop_last().filter(pred);
        if conflict(history.last(), new) {
            assert(kept_items(history, new) =~= sub);
        } else {
            assert(kept_items(history, new) =~= sub.push(history.last()));
        }
    }
    history.lemma_filter_len(pred);
}

} // verus!
