//! The calls into toml_edit that edit manifests in place, keeping their layout,
//! and a model of a document: what it holds at each path of keys.
use vstd::prelude::*;
use toml_edit::{DocumentMut, Item, TomlError, Value};
use crate::names::views;

verus! {

#[verifier::external_type_specification]
#[verifier::external_body]
pub struct ExDocumentMut(toml_edit::DocumentMut);

#[verifier::external_type_specification]
#[verifier::external_body]
pub struct ExTomlError(toml_edit::TomlError);

/// What a document holds at a path of keys.
#[derive(PartialEq, Eq, Structural, Clone, Copy, Debug)]
pub enum Shape {
    Absent,
    Table,
    InlineTable,
    Other,
}

/// What `d` holds at `path`.
pub uninterp spec fn shape_at(d: DocumentMut, path: Seq<Seq<char>>) -> Shape;

/// The string that `d` holds at `path`, where it holds a string.
pub uninterp spec fn string_at(d: DocumentMut, path: Seq<Seq<char>>) -> Option<Seq<char>>;

/// The boolean that `d` holds at `path`, where it holds a boolean.
pub uninterp spec fn bool_at(d: DocumentMut, path: Seq<Seq<char>>) -> Option<bool>;

/// The strings that `d` holds at `path`, where it holds an array of strings.
pub uninterp spec fn strings_at(d: DocumentMut, path: Seq<Seq<char>>) -> Option<Seq<Seq<char>>>;

/// The table or inline table at `path` in `d` is written with dotted keys.
pub uninterp spec fn dotted_at(d: DocumentMut, path: Seq<Seq<char>>) -> bool;

/// The text that toml_edit writes for `d`.
pub uninterp spec fn doc_text(d: DocumentMut) -> Seq<char>;

/// toml_edit accepts `text` as a TOML document.
pub uninterp spec fn is_toml(text: Seq<char>) -> bool;

/// What the document that toml_edit parses from `text` holds at `path`.
pub uninterp spec fn text_shape(text: Seq<char>, path: Seq<Seq<char>>) -> Shape;

/// The string that the document parsed from `text` holds at `path`.
pub uninterp spec fn text_string(text: Seq<char>, path: Seq<Seq<char>>) -> Option<Seq<char>>;

/// The boolean that the document parsed from `text` holds at `path`.
pub uninterp spec fn text_bool(text: Seq<char>, path: Seq<Seq<char>>) -> Option<bool>;

/// The strings that the document parsed from `text` holds at `path`.
pub uninterp spec fn text_strings(text: Seq<char>, path: Seq<Seq<char>>) -> Option<Seq<Seq<char>>>;

/// `d` holds at `q` what the document parsed from `text` holds there.
pub open spec fn holds_text(d: DocumentMut, text: Seq<char>, q: Seq<Seq<char>>) -> bool {
    &&& shape_at(d, q) == text_shape(text, q)
    &&& string_at(d, q) == text_string(text, q)
    &&& bool_at(d, q) == text_bool(text, q)
    &&& strings_at(d, q) == text_strings(text, q)
}

/// Nothing at all is held at `q`.
pub open spec fn vacant(d: DocumentMut, q: Seq<Seq<char>>) -> bool {
    &&& shape_at(d, q) == Shape::Absent
    &&& string_at(d, q) is None
    &&& bool_at(d, q) is None
    &&& strings_at(d, q) is None
    &&& !dotted_at(d, q)
}

/// Nothing is held at `p` or below it.
pub open spec fn gone_below(d: DocumentMut, p: Seq<Seq<char>>) -> bool {
    forall|q: Seq<Seq<char>>| is_prefix(p, q) ==> #[trigger] vacant(d, q)
}

/// Nothing is held strictly below `p`.
pub open spec fn nothing_below(d: DocumentMut, p: Seq<Seq<char>>) -> bool {
    forall|q: Seq<Seq<char>>| is_prefix(p, q) && q.len() > p.len() ==> #[trigger] vacant(d, q)
}

/// At `p` stands the boolean `b`, with nothing below it.
pub open spec fn bool_entry(d: DocumentMut, p: Seq<Seq<char>>, b: bool) -> bool {
    &&& shape_at(d, p) == Shape::Other
    &&& bool_at(d, p) == Some(b)
    &&& string_at(d, p) is None
    &&& strings_at(d, p) is None
    &&& !dotted_at(d, p)
    &&& nothing_below(d, p)
}

pub open spec fn table_like(s: Shape) -> bool {
    s == Shape::Table || s == Shape::InlineTable
}

/// `p` is `q` or lies above it.
pub open spec fn is_prefix(p: Seq<Seq<char>>, q: Seq<Seq<char>>) -> bool {
    p.len() <= q.len() && q.subrange(0, p.len() as int) == p
}

/// `a` and `b` hold the same at `q`.
pub open spec fn same_at(a: DocumentMut, b: DocumentMut, q: Seq<Seq<char>>) -> bool {
    &&& shape_at(a, q) == shape_at(b, q)
    &&& string_at(a, q) == string_at(b, q)
    &&& bool_at(a, q) == bool_at(b, q)
    &&& strings_at(a, q) == strings_at(b, q)
    &&& dotted_at(a, q) == dotted_at(b, q)
}

/// `a` and `b` hold the same everywhere but at `p` and below it.
pub open spec fn same_outside(a: DocumentMut, b: DocumentMut, p: Seq<Seq<char>>) -> bool {
    forall|q: Seq<Seq<char>>| !is_prefix(p, q) ==> #[trigger] same_at(a, b, q)
}

/// Nothing is held below `p`.
pub open spec fn empty_below(d: DocumentMut, p: Seq<Seq<char>>) -> bool {
    forall|k: Seq<char>| #[trigger] shape_at(d, p.push(k)) == Shape::Absent
}

/// Relies on toml_edit's `FromStr` for `DocumentMut`: it succeeds exactly on
/// the texts that it accepts, and the document holds what the text holds.
#[verifier::external_body]
pub(crate) fn parse_document(text: &str) -> (r: Result<DocumentMut, TomlError>)
    ensures
        r is Ok == is_toml(text@),
        r matches Ok(d) ==> forall|q: Seq<Seq<char>>|
            #![trigger holds_text(d, text@, q)]
            shape_at(d, q) == text_shape(text@, q) && string_at(d, q) == text_string(text@, q)
                && bool_at(d, q) == text_bool(text@, q) && strings_at(d, q) == text_strings(text@, q),
        r matches Ok(d) ==> shape_at(d, Seq::empty()) == Shape::Table,
{
    text.parse::<DocumentMut>()
}

/// Relies on toml_edit's `Display` for `DocumentMut`: the document as text.
#[verifier::external_body]
pub(crate) fn render_document(doc: &DocumentMut) -> (r: String)
    ensures
        r@ == doc_text(*doc),
{
    doc.to_string()
}

/// Relies on `Item::get` and the variants of `Item` and `Value`: what the
/// document holds at `path` (an `Item::None` holds nothing).
#[verifier::external_body]
pub(crate) fn shape_of(doc: &DocumentMut, path: &Vec<String>) -> (r: Shape)
    ensures
        r == shape_at(*doc, views(path@)),
{
    match path.iter().try_fold(doc.as_item(), |item, key| item.get(key.as_str())) {
        None | Some(Item::None) => Shape::Absent,
        Some(Item::Table(_)) => Shape::Table,
        Some(Item::Value(Value::InlineTable(_))) => Shape::InlineTable,
        Some(_) => Shape::Other,
    }
}

/// Relies on `Item::get` and `Item::as_bool`: the boolean at `path`, if any.
#[verifier::external_body]
pub(crate) fn bool_of(doc: &DocumentMut, path: &Vec<String>) -> (r: Option<bool>)
    ensures
        r == bool_at(*doc, views(path@)),
{
    path.iter().try_fold(doc.as_item(), |item, key| item.get(key.as_str())).and_then(|item| item.as_bool())
}

/// Relies on `TableLike::remove` on the table-like item at `parent`: `key`
/// and all below it leave, nothing else changes. Tells whether it held
/// something (an `Item::None` holds nothing).
#[verifier::external_body]
pub(crate) fn remove_key(doc: &mut DocumentMut, parent: &Vec<String>, key: &str) -> (r: bool)
    requires
        table_like(shape_at(*old(doc), views(parent@))),
    ensures
        r == (shape_at(*old(doc), views(parent@).push(key@)) != Shape::Absent),
        gone_below(*final(doc), views(parent@).push(key@)),
        same_outside(*old(doc), *final(doc), views(parent@).push(key@)),
{
    match parent.iter().try_fold(doc.as_item_mut(), |item, key| item.get_mut(key.as_str())).and_then(|item| item.as_table_like_mut()) {
        Some(t) => t.remove(key).is_some_and(|item| !item.is_none()),
        None => false,
    }
}

/// Relies on `TableLike::insert` on the table-like item at `parent`, with a
/// new standard table (`toml_edit::table`): `key` holds an empty table.
#[verifier::external_body]
pub(crate) fn insert_table(doc: &mut DocumentMut, parent: &Vec<String>, key: &str)
    requires
        shape_at(*old(doc), views(parent@)) == Shape::Table,
    ensures
        shape_at(*final(doc), views(parent@).push(key@)) == Shape::Table,
        !dotted_at(*final(doc), views(parent@).push(key@)),
        empty_below(*final(doc), views(parent@).push(key@)),
        nothing_below(*final(doc), views(parent@).push(key@)),
        same_outside(*old(doc), *final(doc), views(parent@).push(key@)),
{
    if let Some(t) = parent.iter().try_fold(doc.as_item_mut(), |item, key| item.get_mut(key.as_str())).and_then(|item| item.as_table_like_mut()) {
        t.insert(key, toml_edit::table());
    }
}

/// Relies on `TableLike::insert` on the table-like item at `parent`, with an
/// empty `InlineTable` whose keys are dotted or not (`set_dotted`,
/// `is_dotted`).
#[verifier::external_body]
pub(crate) fn insert_inline_table(doc: &mut DocumentMut, parent: &Vec<String>, key: &str, dotted: bool)
    requires
        table_like(shape_at(*old(doc), views(parent@))),
    ensures
        shape_at(*final(doc), views(parent@).push(key@)) == Shape::InlineTable,
        dotted_at(*final(doc), views(parent@).push(key@)) == dotted,
        empty_below(*final(doc), views(parent@).push(key@)),
        nothing_below(*final(doc), views(parent@).push(key@)),
        same_outside(*old(doc), *final(doc), views(parent@).push(key@)),
{
    if let Some(t) = parent.iter().try_fold(doc.as_item_mut(), |item, key| item.get_mut(key.as_str())).and_then(|item| item.as_table_like_mut()) {
        let mut entry = toml_edit::InlineTable::new();
        entry.set_dotted(dotted);
        t.insert(key, toml_edit::value(entry));
    }
}

/// Relies on `TableLike::insert` on the table-like item at `parent`, with a
/// string value (`toml_edit::value`).
#[verifier::external_body]
pub(crate) fn insert_string(doc: &mut DocumentMut, parent: &Vec<String>, key: &str, s: &str)
    requires
        table_like(shape_at(*old(doc), views(parent@))),
    ensures
        shape_at(*final(doc), views(parent@).push(key@)) == Shape::Other,
        string_at(*final(doc), views(parent@).push(key@)) == Some(s@),
        nothing_below(*final(doc), views(parent@).push(key@)),
        same_outside(*old(doc), *final(doc), views(parent@).push(key@)),
{
    if let Some(t) = parent.iter().try_fold(doc.as_item_mut(), |item, key| item.get_mut(key.as_str())).and_then(|item| item.as_table_like_mut()) {
        t.insert(key, toml_edit::value(s));
    }
}

/// Relies on `TableLike::insert` on the table-like item at `parent`, with a
/// boolean value (`toml_edit::value`).
#[verifier::external_body]
pub(crate) fn insert_bool(doc: &mut DocumentMut, parent: &Vec<String>, key: &str, b: bool)
    requires
        table_like(shape_at(*old(doc), views(parent@))),
    ensures
        shape_at(*final(doc), views(parent@).push(key@)) == Shape::Other,
        bool_entry(*final(doc), views(parent@).push(key@), b),
        same_outside(*old(doc), *final(doc), views(parent@).push(key@)),
{
    if let Some(t) = parent.iter().try_fold(doc.as_item_mut(), |item, key| item.get_mut(key.as_str())).and_then(|item| item.as_table_like_mut()) {
        t.insert(key, toml_edit::value(b));
    }
}

/// Relies on `TableLike::insert` on the table-like item at `parent`, with an
/// array of the strings in order (`Array::from_iter`).
#[verifier::external_body]
pub(crate) fn insert_strings(doc: &mut DocumentMut, parent: &Vec<String>, key: &str, items: &Vec<String>)
    requires
        table_like(shape_at(*old(doc), views(parent@))),
    ensures
        shape_at(*final(doc), views(parent@).push(key@)) == Shape::Other,
        strings_at(*final(doc), views(parent@).push(key@)) == Some(views(items@)),
        nothing_below(*final(doc), views(parent@).push(key@)),
        same_outside(*old(doc), *final(doc), views(parent@).push(key@)),
{
    if let Some(t) = parent.iter().try_fold(doc.as_item_mut(), |item, key| item.get_mut(key.as_str())).and_then(|item| item.as_table_like_mut()) {
        t.insert(key, toml_edit::value(toml_edit::Array::from_iter(items.iter().cloned())));
    }
}

/// Relies on `TableLike::fmt`: only the spacing of the item at `path`
/// changes, not its keys, values or dotted style.
#[verifier::external_body]
pub(crate) fn format_item(doc: &mut DocumentMut, path: &Vec<String>)
    requires
        table_like(shape_at(*old(doc), views(path@))),
    ensures
        forall|q: Seq<Seq<char>>| #[trigger] same_at(*old(doc), *final(doc), q),
{
    if let Some(t) = path.iter().try_fold(doc.as_item_mut(), |item, key| item.get_mut(key.as_str())).and_then(|item| item.as_table_like_mut()) {
        t.fmt();
    }
}

} // verus!
