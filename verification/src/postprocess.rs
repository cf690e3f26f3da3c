//! The edits made to the Rust code that the gRPC generator wrote: the
//! placeholder structs leave the generated file, the module tree of `mod.rs`
//! gains the `grpc` module and the owned-type macro, and the module file of
//! each namespace gets the macro for the types it defines.
use vstd::prelude::*;
use crate::builder::Builder;
use crate::generate::{defined_view, entry_find, lemma_entry_find};
use crate::pattern::{regex_compiles, regex_remove_first, regex_remove_first_spec};
use crate::text::{
    find_char, find_char_spec, find_str, find_str_spec, join, join_spec, lemma_find_char,
    lemma_find_str, lemma_rfind_str, rfind_str, rfind_str_spec, rsplit_once, rsplit_once_spec, split,
    split_spec, starts_with_spec, str_eq, strip_prefix,
};

verus! {

#[verifier::external_type_specification]
#[verifier::external_body]
pub struct ExSynError(syn::Error);

/// Whether `syn::parse_str::<syn::ItemMacro>` accepts `text`.
pub uninterp spec fn parses_as_macro_item(text: Seq<char>) -> bool;

/// Parses `text` as a macro invocation item with
/// `syn::parse_str::<syn::ItemMacro>` and keeps only whether that worked.
///
/// Claimed: the parse fails exactly when `parses_as_macro_item` says so;
/// which texts those are is not stated.
#[verifier::external_body]
fn check_macro_item(text: &str) -> (r: Result<(), syn::Error>)
    ensures
        r is Ok <==> parses_as_macro_item(text@),
{
    match syn::parse_str::<syn::ItemMacro>(text) {
        Ok(_) => Ok(()),
        Err(e) => Err(e),
    }
}

#[verifier::external_type_specification]
#[verifier::external_body]
pub struct ExItemMod(syn::ItemMod);

/// The module tree that `syn::parse_str::<syn::ItemMod>` reads from `text`:
/// each item of a module by its position, a module item with its own name
/// and items; `None` when the text does not parse as a module.
pub uninterp spec fn mod_rs_tree(text: Seq<char>) -> Option<ModTreeView>;

/// The items of a parsed module as a module tree, converted one for one.
#[verifier::external_body]
fn mod_tree_of(item: &syn::ItemMod) -> ModTree {
    let content = match &item.content {
        Some((_, items)) => {
            let mut v = Vec::new();
            for (k, it) in items.iter().enumerate() {
                v.push(match it {
                    syn::Item::Mod(m) => ModItem::Module(k, mod_tree_of(m)),
                    _ => ModItem::Kept(k),
                });
            }
            Some(v)
        },
        None => None,
    };
    ModTree { ident: item.ident.to_string(), content }
}

/// Parses `text` with `syn::parse_str::<syn::ItemMod>` into a module tree.
///
/// Claimed: the parse fails exactly when `mod_rs_tree` has no tree for the
/// text, and otherwise gives the tree it names; which texts parse, and into
/// what, is not stated.
#[verifier::external_body]
pub fn parse_mod_rs(text: &str) -> (r: Result<ModTree, syn::Error>)
    ensures
        r is Ok <==> mod_rs_tree(text@) is Some,
        r matches Ok(t) ==> mod_rs_tree(text@) == Some(tree_view(t)),
{
    let item = syn::parse_str::<syn::ItemMod>(text)?;
    Ok(mod_tree_of(&item))
}

/// An item of a module: a module of the parsed file, by its position among
/// the items there, with its own items; an item to be added, given by its
/// source text; or an item of the parsed file kept as it is, by its
/// position.
#[derive(Debug, PartialEq, Eq)]
pub enum ModItem {
    Module(usize, ModTree),
    Source(String),
    Kept(usize),
}

/// A `mod` item: its name and, for an inline module, its items.
#[derive(Debug, PartialEq, Eq)]
pub struct ModTree {
    pub ident: String,
    pub content: Option<Vec<ModItem>>,
}

/// The value of a `ModItem`.
pub enum ModItemView {
    Module(usize, ModTreeView),
    Source(Seq<char>),
    Kept(usize),
}

/// The value of a `ModTree`.
pub struct ModTreeView {
    pub ident: Seq<char>,
    pub content: Option<Seq<ModItemView>>,
}

pub open spec fn tree_view(t: ModTree) -> ModTreeView
    decreases t,
{
    ModTreeView {
        ident: t.ident@,
        content: match t.content {
            Some(v) => Some(items_view(v@)),
            None => None,
        },
    }
}

pub open spec fn items_view(s: Seq<ModItem>) -> Seq<ModItemView>
    decreases s,
{
    if s.len() == 0 {
        Seq::empty()
    } else {
        seq![item_view(s[0])] + items_view(s.subrange(1, s.len() as int))
    }
}

pub open spec fn item_view(i: ModItem) -> ModItemView
    decreases i,
{
    match i {
        ModItem::Module(k, m) => ModItemView::Module(k, tree_view(m)),
        ModItem::Source(s) => ModItemView::Source(s@),
        ModItem::Kept(k) => ModItemView::Kept(k),
    }
}

/// Why the generated code could not be edited.
#[derive(Debug)]
pub enum PostprocessError {
    /// A pattern for a placeholder type was refused by `regex`.
    Regex(regex::Error),
    /// The owned-type macro call did not parse.
    Syntax(syn::Error),
}

/// The lines `pub mod grpc;` and `pub use grpc::*;`.
pub open spec fn grpc_items() -> Seq<ModItemView> {
    seq![ModItemView::Source("pub mod grpc;"@), ModItemView::Source("pub use grpc::*;"@)]
}

/// The import that brings the owned-type macro into scope.
pub open spec fn owned_use_line() -> Seq<char> {
    "use ::tonic_flatbuffers::flatbuffers_owned::*;"@
}

/// The call of the owned-type macro on the comma-separated list `owned`.
pub open spec fn owned_macro_text(owned: Seq<char>) -> Seq<char> {
    "flatbuffers_owned!("@ + owned + ");"@
}

/// `items` followed by the `grpc` module and its import and, for a
/// non-empty `owned`, the macro import and the macro call; the flag is
/// false when the call did not parse, in which case it is left out.
pub open spec fn add_mods_view(items: Seq<ModItemView>, owned: Seq<char>) -> (Seq<ModItemView>, bool) {
    let base = items + grpc_items();
    if owned.len() == 0 {
        (base, true)
    } else {
        let with_use = base.push(ModItemView::Source(owned_use_line()));
        if parses_as_macro_item(owned_macro_text(owned)) {
            (with_use.push(ModItemView::Source(owned_macro_text(owned))), true)
        } else {
            (with_use, false)
        }
    }
}

/// Module `t` after following the path `segs` from segment `idx` on: a
/// module whose name is the last segment gets the items of
/// `add_mods_view`, one named by an earlier segment passes the walk on to
/// its child modules in order; the walk stops at the first failure.
pub open spec fn insert_mods_view(segs: Seq<Seq<char>>, idx: int, t: ModTreeView, owned: Seq<char>) -> (
    ModTreeView,
    bool,
)
    decreases t,
{
    if idx < 0 || idx >= segs.len() {
        (t, true)
    } else if t.ident == segs[idx] && idx == segs.len() - 1 {
        match t.content {
            Some(items) => {
                let (ni, ok) = add_mods_view(items, owned);
                (ModTreeView { ident: t.ident, content: Some(ni) }, ok)
            },
            None => (t, true),
        }
    } else if t.ident == segs[idx] {
        match t.content {
            Some(items) => {
                let (ni, ok) = insert_items_view(segs, idx + 1, items, owned);
                (ModTreeView { ident: t.ident, content: Some(ni) }, ok)
            },
            None => (t, true),
        }
    } else {
        (t, true)
    }
}

/// `insert_mods_view` applied to each module among `items`, in order,
/// until one fails.
pub open spec fn insert_items_view(segs: Seq<Seq<char>>, idx: int, items: Seq<ModItemView>, owned: Seq<char>) -> (
    Seq<ModItemView>,
    bool,
)
    decreases items,
{
    if items.len() == 0 {
        (items, true)
    } else {
        let rest = items.subrange(1, items.len() as int);
        let (first, ok) = match items[0] {
            ModItemView::Module(k, m) => {
                let (m2, ok) = insert_mods_view(segs, idx, m, owned);
                (ModItemView::Module(k, m2), ok)
            },
            _ => (items[0], true),
        };
        if ok {
            let (r2, ok2) = insert_items_view(segs, idx, rest, owned);
            (seq![first] + r2, ok2)
        } else {
            (seq![first] + rest, false)
        }
    }
}

/// The module tree of `mod.rs` for the generated code of namespace `ns`:
/// for a dotted namespace the walk of `insert_mods_view` from the root,
/// otherwise the items of `add_mods_view` added to the root module itself.
pub open spec fn edit_mod_view(t: ModTreeView, ns: Seq<char>, owned: Seq<char>) -> (ModTreeView, bool) {
    let segs = split_spec(ns, '.');
    if segs.len() > 1 {
        insert_mods_view(segs, 0, t, owned)
    } else {
        match t.content {
            Some(items) => {
                let (ni, ok) = add_mods_view(items, owned);
                (ModTreeView { ident: t.ident, content: Some(ni) }, ok)
            },
            None => (t, true),
        }
    }
}

/// Whether the walk succeeds on item `x`: a module is walked, other items
/// are left alone.
pub open spec fn child_ok(segs: Seq<Seq<char>>, idx: int, x: ModItemView, owned: Seq<char>) -> bool {
    match x {
        ModItemView::Module(_, m) => insert_mods_view(segs, idx, m, owned).1,
        _ => true,
    }
}

/// Item `x` after the walk: a module is replaced by its walked version at
/// its place, other items stay as they are.
pub open spec fn child_after(segs: Seq<Seq<char>>, idx: int, x: ModItemView, owned: Seq<char>) -> ModItemView {
    match x {
        ModItemView::Module(k, m) => ModItemView::Module(k, insert_mods_view(segs, idx, m, owned).0),
        _ => x,
    }
}

/// Every item of a module is visited, not only the first module: the walk
/// over the items succeeds exactly when it succeeds on each of them, and
/// then each child module, wherever it stands, is replaced by its walked
/// version while the other items stay in place.
pub proof fn lemma_insert_items_each(segs: Seq<Seq<char>>, idx: int, items: Seq<ModItemView>, owned: Seq<char>)
    ensures
        insert_items_view(segs, idx, items, owned).1 <==> forall|k: int|
            0 <= k < items.len() ==> child_ok(segs, idx, #[trigger] items[k], owned),
        insert_items_view(segs, idx, items, owned).1 ==> insert_items_view(segs, idx, items, owned).0
            == items.map_values(|x: ModItemView| child_after(segs, idx, x, owned)),
    decreases items.len(),
{
    if items.len() > 0 {
        let rest = items.subrange(1, items.len() as int);
        lemma_insert_items_each(segs, idx, rest, owned);
        let first = child_after(segs, idx, items[0], owned);
        assert(forall|k: int| 0 <= k < rest.len() ==> #[trigger] rest[k] == items[k + 1]);
        if child_ok(segs, idx, items[0], owned) {
            let (r2, ok2) = insert_items_view(segs, idx, rest, owned);
            assert(insert_items_view(segs, idx, items, owned) == (seq![first] + r2, ok2));
            if ok2 {
                assert(seq![first] + r2 =~= items.map_values(|x: ModItemView| child_after(segs, idx, x, owned)));
            } else {
                let k = choose|k: int| 0 <= k < rest.len() && !child_ok(segs, idx, #[trigger] rest[k], owned);
                assert(!child_ok(segs, idx, items[k + 1], owned));
            }
            assert forall|k: int| 0 <= k < items.len() && ok2 implies child_ok(segs, idx, #[trigger] items[k], owned) by {
                if k > 0 {
                    assert(items[k] == rest[k - 1]);
                }
            }
        } else {
            assert(!insert_items_view(segs, idx, items, owned).1);
        }
    }
}

/// Whether the walk can fail: only the owned-type macro call can, when it
/// does not parse.
pub open spec fn macro_parses(owned: Seq<char>) -> bool {
    owned.len() == 0 || parses_as_macro_item(owned_macro_text(owned))
}

/// Adding the items to a module fails only on a macro call that does not
/// parse.
pub proof fn lemma_add_mods_ok(items: Seq<ModItemView>, owned: Seq<char>)
    ensures
        add_mods_view(items, owned).1 == macro_parses(owned),
{
}

/// When the macro call parses, the walk succeeds on every module.
pub proof fn lemma_insert_mods_ok(segs: Seq<Seq<char>>, idx: int, t: ModTreeView, owned: Seq<char>)
    requires
        macro_parses(owned),
    ensures
        insert_mods_view(segs, idx, t, owned).1,
    decreases t,
{
    if 0 <= idx < segs.len() && t.ident == segs[idx] && idx != segs.len() - 1 {
        if let Some(items) = t.content {
            lemma_insert_items_ok(segs, idx + 1, items, owned);
        }
    }
}

/// When the macro call parses, the walk succeeds on every run of items.
pub proof fn lemma_insert_items_ok(segs: Seq<Seq<char>>, idx: int, items: Seq<ModItemView>, owned: Seq<char>)
    requires
        macro_parses(owned),
    ensures
        insert_items_view(segs, idx, items, owned).1,
    decreases items,
{
    if items.len() > 0 {
        if let ModItemView::Module(_, m) = items[0] {
            lemma_insert_mods_ok(segs, idx, m, owned);
        }
        lemma_insert_items_ok(segs, idx, items.subrange(1, items.len() as int), owned);
    }
}

/// The module reached from `t` by stepping, for each entry of `path`, into
/// the item at that position among the current module's items; `None` when
/// a step lands outside the items or on an item that is not a module.
pub open spec fn descend(t: ModTreeView, path: Seq<int>) -> Option<ModTreeView>
    decreases path.len(),
{
    if path.len() == 0 {
        Some(t)
    } else {
        match t.content {
            Some(items) => if 0 <= path[0] < items.len() {
                match items[path[0]] {
                    ModItemView::Module(_, m) => descend(m, path.drop_first()),
                    _ => None,
                }
            } else {
                None
            },
            None => None,
        }
    }
}

/// Following `path` from `t` passes, step by step, through modules named by
/// the segments `segs` from `idx` on.
pub open spec fn path_named(t: ModTreeView, path: Seq<int>, segs: Seq<Seq<char>>, idx: int) -> bool {
    forall|i: int|
        0 <= i <= path.len() ==> (#[trigger] descend(t, path.subrange(0, i)) matches Some(n) && n.ident
            == segs[idx + i])
}

/// `t` with the items of `add_mods_view` added to its own.
pub open spec fn with_grpc_items(t: ModTreeView, owned: Seq<char>) -> ModTreeView {
    match t.content {
        Some(items) => ModTreeView { ident: t.ident, content: Some(add_mods_view(items, owned).0) },
        None => t,
    }
}

proof fn lemma_descend_step(t: ModTreeView, path: Seq<int>, i: int)
    requires
        path.len() > 0,
        0 <= i < path.len(),
        t.content is Some,
        0 <= path[0] < t.content->0.len(),
        t.content->0[path[0]] is Module,
    ensures
        descend(t, path.subrange(0, i + 1)) == descend(
            t.content->0[path[0]]->Module_1,
            path.drop_first().subrange(0, i),
        ),
{
    let p = path.subrange(0, i + 1);
    assert(p[0] == path[0]);
    assert(p.drop_first() =~= path.drop_first().subrange(0, i));
}

/// When the path of segments exists in the module tree, the walk from
/// segment `idx` gives the module at its end, wherever it stands among its
/// siblings at each level, the `grpc` items; with a macro call that parses
/// the walk succeeds.
pub proof fn lemma_insert_reaches_target(
    segs: Seq<Seq<char>>,
    idx: int,
    t: ModTreeView,
    path: Seq<int>,
    owned: Seq<char>,
)
    requires
        0 <= idx,
        idx + path.len() == segs.len() - 1,
        path_named(t, path, segs, idx),
        macro_parses(owned),
    ensures
        insert_mods_view(segs, idx, t, owned).1,
        descend(t, path) matches Some(n) && descend(insert_mods_view(segs, idx, t, owned).0, path) == Some(
            with_grpc_items(n, owned),
        ),
    decreases path.len(),
{
    lemma_insert_mods_ok(segs, idx, t, owned);
    assert(path.subrange(0, 0) =~= Seq::<int>::empty());
    assert(descend(t, path.subrange(0, 0)) == Some(t));
    assert(t.ident == segs[idx]);
    assert(path.subrange(0, path.len() as int) =~= path);
    if path.len() == 0 {
    } else {
        assert(descend(t, path.subrange(0, 1)) is Some);
        let p1 = path.subrange(0, 1);
        assert(p1[0] == path[0]);
        let items = t.content->0;
        let x = items[path[0]];
        let m = x->Module_1;
        let k = x->Module_0;
        let rest = path.drop_first();
        assert forall|i: int| 0 <= i <= rest.len() implies (#[trigger] descend(m, rest.subrange(0, i)) matches Some(
            n,
        ) && n.ident == segs[idx + 1 + i]) by {
            lemma_descend_step(t, path, i);
            assert(descend(t, path.subrange(0, i + 1)) matches Some(n) && n.ident == segs[idx + (i + 1)]);
        }
        lemma_insert_reaches_target(segs, idx + 1, m, rest, owned);
        lemma_insert_items_each(segs, idx + 1, items, owned);
        lemma_insert_items_ok(segs, idx + 1, items, owned);
        let t2 = insert_mods_view(segs, idx, t, owned).0;
        let items2 = insert_items_view(segs, idx + 1, items, owned).0;
        assert(t2.content == Some(items2));
        assert(items2[path[0]] == child_after(segs, idx + 1, x, owned));
        assert(items2[path[0]] == ModItemView::Module(k, insert_mods_view(segs, idx + 1, m, owned).0));
        assert(descend(t, path) == descend(m, rest));
        assert(descend(t2, path) == descend(insert_mods_view(segs, idx + 1, m, owned).0, rest));
    }
}

/// The edit of `mod.rs` for a dotted namespace gives the module at the end
/// of the namespace's path the `grpc` items, whatever its position among its
/// siblings, when that path exists in the tree; with a macro call that
/// parses the edit succeeds.
pub proof fn lemma_edit_mod_reaches_namespace(t: ModTreeView, ns: Seq<char>, path: Seq<int>, owned: Seq<char>)
    requires
        split_spec(ns, '.').len() > 1,
        path.len() == split_spec(ns, '.').len() - 1,
        path_named(t, path, split_spec(ns, '.'), 0),
        macro_parses(owned),
    ensures
        edit_mod_view(t, ns, owned).1,
        descend(t, path) matches Some(n) && descend(edit_mod_view(t, ns, owned).0, path) == Some(
            with_grpc_items(n, owned),
        ),
{
    lemma_insert_reaches_target(split_spec(ns, '.'), 0, t, path, owned);
}

proof fn lemma_items_view_push(s: Seq<ModItem>, x: ModItem)
    ensures
        items_view(s.push(x)) == items_view(s).push(item_view(x)),
    decreases s.len(),
{
    if s.len() == 0 {
        let t = s.push(x);
        assert(t.subrange(1, 1) =~= Seq::<ModItem>::empty());
        assert(items_view(t.subrange(1, 1)) == Seq::<ModItemView>::empty());
        assert(t[0] == x);
        assert(items_view(t) =~= seq![item_view(x)]);
    } else {
        assert(s.push(x).subrange(1, s.len() + 1 as int) =~= s.subrange(1, s.len() as int).push(x));
        lemma_items_view_push(s.subrange(1, s.len() as int), x);
        assert(s.push(x)[0] == s[0]);
        assert(items_view(s.push(x)) =~= items_view(s).push(item_view(x)));
    }
}

proof fn lemma_items_view_prepend(x: ModItem, s: Seq<ModItem>)
    ensures
        items_view(seq![x] + s) == seq![item_view(x)] + items_view(s),
{
    let t = seq![x] + s;
    assert(t.subrange(1, t.len() as int) =~= s);
    assert(t[0] == x);
}

/// Appends `x` to `items`.
fn push_item(items: &mut Vec<ModItem>, x: ModItem)
    ensures
        items_view(final(items)@) == items_view(old(items)@).push(item_view(x)),
{
    let ghost s0 = items@;
    let ghost xg = x;
    items.push(x);
    proof { lemma_items_view_push(s0, xg); }
}

proof fn lemma_items_view_len(s: Seq<ModItem>)
    ensures
        items_view(s).len() == s.len(),
    decreases s.len(),
{
    if s.len() > 0 {
        lemma_items_view_len(s.subrange(1, s.len() as int));
    }
}

/// Appends the `grpc` items and, for a non-empty `owned`, the owned-type
/// macro.
fn add_mods_exec(items: &mut Vec<ModItem>, owned: &str) -> (r: Result<(), PostprocessError>)
    ensures
        (items_view(final(items)@), r is Ok) == add_mods_view(items_view(old(items)@), owned@),
{
    let ghost v0 = items_view(items@);
    push_item(items, ModItem::Source("pub mod grpc;".to_owned()));
    push_item(items, ModItem::Source("pub use grpc::*;".to_owned()));
    assert(items_view(items@) =~= v0 + grpc_items());
    if owned.unicode_len() == 0 {
        return Ok(());
    }
    push_item(items, ModItem::Source("use ::tonic_flatbuffers::flatbuffers_owned::*;".to_owned()));
    let mut text = String::new();
    text.append("flatbuffers_owned!(");
    text.append(owned);
    text.append(");");
    match check_macro_item(text.as_str()) {
        Ok(()) => {
            push_item(items, ModItem::Source(text));
            Ok(())
        },
        Err(e) => Err(PostprocessError::Syntax(e)),
    }
}

/// `insert_mods_view` on a module taken by value.
fn insert_mods_owned(segments: &Vec<String>, idx: usize, t: ModTree, owned: &str) -> (r: (
    ModTree,
    Result<(), PostprocessError>,
))
    ensures
        (tree_view(r.0), r.1 is Ok) == insert_mods_view(segments.deep_view(), idx as int, tree_view(t), owned@),
    decreases t,
{
    if idx >= segments.len() {
        return (t, Ok(()));
    }
    let ghost tv = tree_view(t);
    let ModTree { ident, content } = t;
    let same = str_eq(ident.as_str(), segments[idx].as_str());
    if same && idx == segments.len() - 1 {
        match content {
            Some(items) => {
                let mut items = items;
                let r = add_mods_exec(&mut items, owned);
                (ModTree { ident, content: Some(items) }, r)
            },
            None => (ModTree { ident, content: None }, Ok(())),
        }
    } else if same {
        match content {
            Some(items) => {
                let (ni, r) = insert_items_owned(segments, idx + 1, items, owned);
                (ModTree { ident, content: Some(ni) }, r)
            },
            None => (ModTree { ident, content: None }, Ok(())),
        }
    } else {
        (ModTree { ident, content }, Ok(()))
    }
}

/// `insert_items_view` on items taken by value.
fn insert_items_owned(segments: &Vec<String>, idx: usize, items: Vec<ModItem>, owned: &str) -> (r: (
    Vec<ModItem>,
    Result<(), PostprocessError>,
))
    ensures
        (items_view(r.0@), r.1 is Ok) == insert_items_view(
            segments.deep_view(),
            idx as int,
            items_view(items@),
            owned@,
        ),
    decreases items@,
{
    let mut items = items;
    if items.len() == 0 {
        return (items, Ok(()));
    }
    let ghost s0 = items@;
    let first = items.remove(0);
    let ghost rest0 = items@;
    proof {
        assert(rest0 =~= s0.subrange(1, s0.len() as int));
        lemma_items_view_len(s0);
        lemma_items_view_len(rest0);
        assert(items_view(s0)[0] == item_view(s0[0]));
        assert(items_view(s0).subrange(1, items_view(s0).len() as int) =~= items_view(rest0));
    }
    let (first2, res) = match first {
        ModItem::Module(k, m) => {
            let (m2, res) = insert_mods_owned(segments, idx, m, owned);
            (ModItem::Module(k, m2), res)
        },
        other => (other, Ok(())),
    };
    match res {
        Ok(()) => {
            let (rest, res2) = insert_items_owned(segments, idx, items, owned);
            let ghost rv = rest@;
            let mut rest = rest;
            rest.insert(0, first2);
            proof {
                assert(rest@ =~= seq![first2] + rv);
                lemma_items_view_prepend(first2, rv);
            }
            (rest, res2)
        },
        Err(e) => {
            items.insert(0, first2);
            proof {
                assert(items@ =~= seq![first2] + rest0);
                lemma_items_view_prepend(first2, rest0);
            }
            (items, Err(e))
        },
    }
}

impl Builder {
    /// Adds to the items of a module the `grpc` module and its import and,
    /// when `owned_list` is not empty, the owned-type macro call on it.
    pub fn add_mods_static(items: &mut Vec<ModItem>, owned_list: &str) -> (r: Result<(), PostprocessError>)
        ensures
            (items_view(final(items)@), r is Ok) == add_mods_view(items_view(old(items)@), owned_list@),
    {
        add_mods_exec(items, owned_list)
    }

    /// Follows the module path `segments` from `cur_idx` on down from
    /// `item` and adds the `grpc` items to the module it ends in.
    pub fn insert_mods_static(
        segments: &Vec<String>,
        cur_idx: usize,
        item: &mut ModTree,
        owned_list: &str,
    ) -> (r: Result<(), PostprocessError>)
        ensures
            (tree_view(*final(item)), r is Ok) == insert_mods_view(
                segments.deep_view(),
                cur_idx as int,
                tree_view(*old(item)),
                owned_list@,
            ),
    {
        let mut t = ModTree { ident: String::new(), content: None };
        std::mem::swap(&mut t, item);
        let (t2, r) = insert_mods_owned(segments, cur_idx, t, owned_list);
        *item = t2;
        r
    }

    /// The edit of `mod.rs` for the generated code of `file_namespace`.
    pub fn edit_mod_tree(mod_def: &mut ModTree, file_namespace: &str, owned_list: &str) -> (r: Result<
        (),
        PostprocessError,
    >)
        ensures
            (tree_view(*final(mod_def)), r is Ok) == edit_mod_view(
                tree_view(*old(mod_def)),
                file_namespace@,
                owned_list@,
            ),
    {
        let segments = split(file_namespace, '.');
        if segments.len() > 1 {
            Self::insert_mods_static(&segments, 0, mod_def, owned_list)
        } else {
            let mut content: Option<Vec<ModItem>> = None;
            std::mem::swap(&mut content, &mut mod_def.content);
            match content {
                Some(items) => {
                    let mut items = items;
                    let r = add_mods_exec(&mut items, owned_list);
                    mod_def.content = Some(items);
                    r
                },
                None => Ok(()),
            }
        }
    }
}

/// The last dot-separated segment of a qualified type name.
pub open spec fn short_name(fake: Seq<char>) -> Seq<char> {
    match rsplit_once_spec(fake, '.') {
        Some((_, t)) => t,
        None => fake,
    }
}

/// The pattern of the empty placeholder struct `typename` with the
/// attribute lines above it.
pub open spec fn fake_type_pattern(typename: Seq<char>) -> Seq<char> {
    "(?:#\\[\\w+\\([\\w, =:]+\\)\\]\\n)*pub struct (?:"@ + typename + ") \\{\\}\\n"@
}

/// `file` with the placeholder struct of each of `fakes` removed in turn;
/// `None` when a pattern does not compile.
pub open spec fn remove_fakes(file: Seq<char>, fakes: Seq<Seq<char>>) -> Option<Seq<char>>
    decreases fakes.len(),
{
    if fakes.len() == 0 {
        Some(file)
    } else {
        let pat = fake_type_pattern(short_name(fakes[0]));
        if regex_compiles(pat) {
            remove_fakes(regex_remove_first_spec(pat, file), fakes.drop_first())
        } else {
            None
        }
    }
}

/// Removing the placeholders of two runs of types is removing those of the
/// first run and then, from what is left, those of the second: each removal
/// works on the result of the one before.
pub proof fn lemma_remove_fakes_concat(file: Seq<char>, a: Seq<Seq<char>>, b: Seq<Seq<char>>)
    ensures
        remove_fakes(file, a + b) == match remove_fakes(file, a) {
            Some(rest) => remove_fakes(rest, b),
            None => None,
        },
    decreases a.len(),
{
    if a.len() == 0 {
        assert(a + b =~= b);
    } else {
        assert((a + b)[0] == a[0]);
        assert((a + b).drop_first() =~= a.drop_first() + b);
        let pat = fake_type_pattern(short_name(a[0]));
        if regex_compiles(pat) {
            lemma_remove_fakes_concat(regex_remove_first_spec(pat, file), a.drop_first(), b);
        }
    }
}

/// The placeholder of a single type leaves by one removal of the first
/// match of its pattern; a pattern that does not compile fails the edit.
pub proof fn lemma_remove_fakes_single(file: Seq<char>, fake: Seq<char>)
    ensures
        remove_fakes(file, seq![fake]) == if regex_compiles(fake_type_pattern(short_name(fake))) {
            Some(regex_remove_first_spec(fake_type_pattern(short_name(fake)), file))
        } else {
            None::<Seq<char>>
        },
{
    let one = seq![fake];
    assert(one.drop_first() =~= Seq::<Seq<char>>::empty());
    assert(one[0] == fake);
    let pat = fake_type_pattern(short_name(fake));
    if regex_compiles(pat) {
        assert(remove_fakes(regex_remove_first_spec(pat, file), one.drop_first()) == Some(
            regex_remove_first_spec(pat, file),
        ));
    }
}

/// The short names of `fakes`, each once, in the order of first mention.
pub open spec fn distinct_short_names(fakes: Seq<Seq<char>>) -> Seq<Seq<char>>
    decreases fakes.len(),
{
    if fakes.len() == 0 {
        Seq::empty()
    } else {
        let prev = distinct_short_names(fakes.drop_last());
        let n = short_name(fakes.last());
        if prev.contains(n) {
            prev
        } else {
            prev.push(n)
        }
    }
}

/// `n` without its `Owned` prefix.
pub open spec fn unowned(n: Seq<char>) -> Seq<char> {
    n.subrange("Owned"@.len() as int, n.len() as int)
}

/// The names of the owned types, comma-separated.
pub open spec fn owned_list_spec(fakes: Seq<Seq<char>>) -> Seq<char> {
    join_spec(distinct_short_names(fakes).map_values(|n: Seq<char>| unowned(n)), ","@)
}

/// The placeholder types recorded for namespace `ns`.
pub open spec fn entry_types(fake_types: Seq<(Seq<char>, Seq<Seq<char>>)>, ns: Seq<char>) -> Seq<Seq<char>> {
    match entry_find(fake_types, ns) {
        Some(k) => fake_types[k].1,
        None => Seq::empty(),
    }
}

/// Every placeholder's short name starts with `Owned`.
pub open spec fn all_owned(fakes: Seq<Seq<char>>) -> bool {
    forall|i: int| 0 <= i < fakes.len() ==> starts_with_spec(short_name(#[trigger] fakes[i]), "Owned"@)
}

proof fn lemma_distinct_short_names(fakes: Seq<Seq<char>>, n: Seq<char>)
    requires
        all_owned(fakes),
    ensures
        distinct_short_names(fakes).contains(n) ==> starts_with_spec(n, "Owned"@),
    decreases fakes.len(),
{
    if fakes.len() > 0 {
        let d = fakes.drop_last();
        assert forall|i: int| 0 <= i < d.len() implies starts_with_spec(short_name(#[trigger] d[i]), "Owned"@) by {
            assert(d[i] == fakes[i]);
        }
        lemma_distinct_short_names(d, n);
        assert(starts_with_spec(short_name(fakes[fakes.len() - 1]), "Owned"@));
    }
}

/// The index of the entry of `v` under `key`.
fn find_entry(v: &Vec<(String, Vec<String>)>, key: &str) -> (r: Option<usize>)
    ensures
        opt_index(r) == entry_find(defined_view(v@), key@),
{
    let ghost dv = defined_view(v@);
    proof { lemma_entry_find(dv, key@); }
    let mut k: usize = 0;
    while k < v.len()
        invariant
            dv == defined_view(v@),
            k <= v@.len(),
            forall|j: int| 0 <= j < k ==> dv[j].0 != key@,
            entry_find(dv, key@) matches Some(e) ==> 0 <= e < dv.len() && dv[e].0 == key@ && forall|j: int|
                0 <= j < e ==> dv[j].0 != key@,
            entry_find(dv, key@) is None ==> forall|j: int| 0 <= j < dv.len() ==> dv[j].0 != key@,
        decreases v@.len() - k,
    {
        assert(dv[k as int].0 == v@[k as int].0@);
        if str_eq(v[k].0.as_str(), key) {
            return Some(k);
        }
        k = k + 1;
    }
    proof {
        if let Some(e) = entry_find(dv, key@) {
            assert(dv[e].0 != key@);
        }
    }
    None
}

pub open spec fn opt_index(o: Option<usize>) -> Option<int> {
    match o {
        Some(i) => Some(i as int),
        None => None,
    }
}

impl Builder {
    /// The generated Rust code of namespace `file_namespace` with the empty
    /// placeholder structs of its entry in `fake_types` removed and the
    /// `use super::*;` header put in front, together with the list of the
    /// owned types those placeholders stand for.
    pub fn rewrite_generated_file(
        file: &str,
        file_namespace: &str,
        fake_types: &Vec<(String, Vec<String>)>,
    ) -> (r: Result<(String, String), PostprocessError>)
        requires
            all_owned(entry_types(defined_view(fake_types@), file_namespace@)),
        ensures
            r is Ok <==> remove_fakes(file@, entry_types(defined_view(fake_types@), file_namespace@)) is Some,
            r matches Ok((text, owned)) ==> {
                let fakes = entry_types(defined_view(fake_types@), file_namespace@);
                &&& text@ == "use super::*;\n"@ + remove_fakes(file@, fakes)->0
                &&& owned@ == owned_list_spec(fakes)
            },
    {
        let ghost fakes = entry_types(defined_view(fake_types@), file_namespace@);
        let empty: Vec<String> = Vec::new();
        proof { lemma_entry_find(defined_view(fake_types@), file_namespace@); }
        let list: &Vec<String> = match find_entry(fake_types, file_namespace) {
            Some(k) => {
                assert(defined_view(fake_types@)[k as int].1 == fake_types@[k as int].1.deep_view());
                &fake_types[k].1
            },
            None => &empty,
        };
        assert(list.deep_view() =~= fakes);
        let mut current = String::new();
        current.append(file);
        let mut names: Vec<String> = Vec::new();
        let mut i: usize = 0;
        assert(fakes.subrange(0, 0) =~= Seq::<Seq<char>>::empty());
        assert(fakes.subrange(0, fakes.len() as int) =~= fakes);
        while i < list.len()
            invariant
                fakes == list.deep_view(),
                fakes == entry_types(defined_view(fake_types@), file_namespace@),
                i <= list.len(),
                remove_fakes(current@, fakes.subrange(i as int, fakes.len() as int)) == remove_fakes(
                    file@,
                    fakes,
                ),
                names.deep_view() == distinct_short_names(fakes.subrange(0, i as int)),
            decreases list.len() - i,
        {
            let fake = list[i].as_str();
            let typename = match rsplit_once(fake, '.') {
                Some((_, t)) => t,
                None => fake,
            };
            assert(typename@ == short_name(fakes[i as int]));
            let ghost before = names.deep_view();
            proof {
                assert(fakes.subrange(0, i + 1).drop_last() =~= fakes.subrange(0, i as int));
                assert(fakes.subrange(0, i + 1).last() == fakes[i as int]);
            }
            if !crate::generate::contains_name(&names, typename) {
                names.push(typename.to_owned());
                assert(names.deep_view() =~= before.push(typename@));
            }
            let mut pattern = String::new();
            pattern.append("(?:#\\[\\w+\\([\\w, =:]+\\)\\]\\n)*pub struct (?:");
            pattern.append(typename);
            pattern.append(") \\{\\}\\n");
            let ghost rest = fakes.subrange(i as int, fakes.len() as int);
            proof {
                assert(rest[0] == fakes[i as int]);
                assert(rest.drop_first() =~= fakes.subrange(i + 1, fakes.len() as int));
            }
            assert(pattern@ =~= fake_type_pattern(short_name(rest[0])));
            match regex_remove_first(pattern.as_str(), current.as_str()) {
                Ok(s) => {
                    current = s;
                },
                Err(e) => {
                    return Err(PostprocessError::Regex(e));
                },
            }
            i = i + 1;
        }
        assert(fakes.subrange(i as int, fakes.len() as int) =~= Seq::<Seq<char>>::empty());
        let mut stripped: Vec<String> = Vec::new();
        let mut j: usize = 0;
        while j < names.len()
            invariant
                j <= names.len(),
                all_owned(fakes),
                names.deep_view() == distinct_short_names(fakes),
                stripped.deep_view() == names.deep_view().subrange(0, j as int).map_values(
                    |n: Seq<char>| unowned(n),
                ),
            decreases names.len() - j,
        {
            proof {
                lemma_distinct_short_names(fakes, names.deep_view()[j as int]);
                assert(names.deep_view().contains(names.deep_view()[j as int]));
            }
            let t = strip_prefix(names[j].as_str(), "Owned").unwrap();
            let ghost before = stripped.deep_view();
            stripped.push(t.to_owned());
            assert(stripped.deep_view() =~= names.deep_view().subrange(0, j + 1).map_values(
                |n: Seq<char>| unowned(n),
            )) by {
                assert(stripped.deep_view() =~= before.push(t@));
            }
            j = j + 1;
        }
        assert(names.deep_view().subrange(0, names.len() as int) =~= names.deep_view());
        let owned = join(&stripped, ",");
        let mut text = String::new();
        text.append("use super::*;\n");
        text.append(current.as_str());
        Ok((text, owned))
    }
}

/// Where a previous owned-type macro block lies: from the first import of
/// the macro to the first `;` after the first macro call (to the call's
/// start when no `;` follows).
pub open spec fn old_macro_range(file: Seq<char>) -> Option<(int, int)> {
    match (find_str_spec(file, owned_use_line()), find_str_spec(file, "flatbuffers_owned!("@)) {
        (Some(s), Some(e)) => Some(
            (
                s,
                match find_char_spec(file.subrange(e, file.len() as int), ';') {
                    Some(i) => e + i + 1,
                    None => e,
                },
            ),
        ),
        _ => None,
    }
}

/// `file` without its previous owned-type macro block.
pub open spec fn without_old_macro(file: Seq<char>) -> Seq<char> {
    match old_macro_range(file) {
        Some((s, e)) => file.subrange(0, s) + file.subrange(e, file.len() as int),
        None => file,
    }
}

/// The end of the statement that holds the last `pub use` of `file`; the
/// start of the file when there is none or it has no `;`.
pub open spec fn insert_position(file: Seq<char>) -> int {
    match rfind_str_spec(file, "pub use"@) {
        Some(idx) => match find_char_spec(file.subrange(idx, file.len() as int), ';') {
            Some(semi) => idx + semi + 1,
            None => 0,
        },
        None => 0,
    }
}

/// The block that imports the owned-type macro and calls it on `types`.
pub open spec fn owned_macro_block(types: Seq<Seq<char>>) -> Seq<char> {
    "\nuse ::tonic_flatbuffers::flatbuffers_owned::*;\nflatbuffers_owned!("@ + join_spec(types, ","@) + ");\n"@
}

/// `file` with its previous macro block removed and a new one, followed by
/// an empty line, put after the last `pub use`.
pub open spec fn inject_spec(file: Seq<char>, types: Seq<Seq<char>>) -> Seq<char> {
    let f = without_old_macro(file);
    let p = insert_position(f);
    f.subrange(0, p) + owned_macro_block(types) + "\n"@ + f.subrange(p, f.len() as int)
}

/// The previous macro block, if any, does not end before it starts.
pub open spec fn old_macro_removable(file: Seq<char>) -> bool {
    old_macro_range(file) matches Some((s, e)) ==> s <= e
}

/// `file` without its previous owned-type macro block.
fn remove_old_macro(file: &str) -> (r: String)
    requires
        old_macro_removable(file@),
    ensures
        r@ == without_old_macro(file@),
{
    let n = file.unicode_len();
    proof {
        lemma_find_str(file@, owned_use_line());
        lemma_find_str(file@, "flatbuffers_owned!("@);
    }
    let start = find_str(file, "use ::tonic_flatbuffers::flatbuffers_owned::*;");
    let end = find_str(file, "flatbuffers_owned!(");
    let mut cleaned = String::new();
    match (start, end) {
        (Some(s), Some(e)) => {
            let tail = file.substring_char(e, n);
            proof { lemma_find_char(tail@, ';'); }
            let me = match find_char(tail, ';') {
                Some(i) => e + i + 1,
                None => e,
            };
            cleaned.append(file.substring_char(0, s));
            cleaned.append(file.substring_char(me, n));
        },
        _ => {
            cleaned.append(file);
        },
    }
    cleaned
}

/// Where the macro block goes in `c`.
fn macro_position(c: &str) -> (r: usize)
    ensures
        r as int == insert_position(c@),
        r <= c@.len(),
{
    let m = c.unicode_len();
    proof { lemma_rfind_str(c@, "pub use"@); }
    match rfind_str(c, "pub use") {
        Some(idx) => {
            let rest = c.substring_char(idx, m);
            proof { lemma_find_char(rest@, ';'); }
            match find_char(rest, ';') {
                Some(semi) => idx + semi + 1,
                None => 0,
            }
        },
        None => 0,
    }
}

impl Builder {
    /// The module file of a namespace with the owned-type macro for `types`
    /// in place of any earlier one.
    pub fn inject_owned_macro(file: &str, types: &Vec<String>) -> (r: String)
        requires
            old_macro_removable(file@),
        ensures
            r@ == inject_spec(file@, types.deep_view()),
    {
        let cleaned = remove_old_macro(file);
        let c = cleaned.as_str();
        let m = c.unicode_len();
        let pos = macro_position(c);
        let list = join(types, ",");
        let mut out = String::new();
        out.append(c.substring_char(0, pos));
        out.append("\nuse ::tonic_flatbuffers::flatbuffers_owned::*;\nflatbuffers_owned!(");
        out.append(list.as_str());
        out.append(");\n");
        out.append("\n");
        out.append(c.substring_char(pos, m));
        out
    }

    /// The module path of the file that gets the owned-type macro of
    /// namespace `namespace`; `None` for the empty namespace or when it
    /// defines no types.
    pub fn owned_macro_plan(namespace: &str, types: &Vec<String>) -> (r: Option<Vec<String>>)
        ensures
            r is None <==> (namespace@.len() == 0 || types@.len() == 0),
            r matches Some(v) ==> v.deep_view() == split_spec(namespace@, '.'),
    {
        if namespace.unicode_len() == 0 || types.len() == 0 {
            None
        } else {
            Some(split(namespace, '.'))
        }
    }
}

impl Builder {
    /// The module tree of the `mod.rs` text of the generated code, with the
    /// `grpc` module, and the owned-type macro for `owned_list`, added where
    /// the generated code of `file_namespace` lives.
    pub fn postprocess_mod_rs(text: &str, file_namespace: &str, owned_list: &str) -> (r: Result<
        ModTree,
        PostprocessError,
    >)
        ensures
            mod_rs_tree(text@) is None ==> r is Err,
            mod_rs_tree(text@) matches Some(t0) ==> {
                let (t1, ok) = edit_mod_view(t0, file_namespace@, owned_list@);
                match r {
                    Ok(t) => ok && tree_view(t) == t1,
                    Err(_) => !ok,
                }
            },
    {
        let mut tree = match parse_mod_rs(text) {
            Ok(t) => t,
            Err(e) => return Err(PostprocessError::Syntax(e)),
        };
        match Self::edit_mod_tree(&mut tree, file_namespace, owned_list) {
            Ok(()) => Ok(tree),
            Err(e) => Err(e),
        }
    }
}

} // verus!
