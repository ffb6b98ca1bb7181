//! JSON text read and rewritten with `serde_json`: what a document holds at
//! a JSON Pointer, the keys of an object in document order, and a document
//! printed again without one member. The sidecar and `.fvmrc` logic above
//! these is verified.
use serde_json::Value;
use vstd::prelude::*;

verus! {

/// What a document holds at one place, as plain values.
#[derive(Debug, Clone, PartialEq, Eq)]
pub enum JsonItem {
    /// Nothing is there.
    Absent,
    Null,
    Bool(bool),
    /// A number: its text as `serde_json` prints it, and its value when it
    /// is a non-negative integer that fits a `u64`.
    Number(String, Option<u64>),
    Text(String),
    /// An array, its contents not read.
    Array,
    /// An object, its contents not read.
    Object,
}

/// The mathematical form of a [`JsonItem`].
pub enum JsonItemView {
    Absent,
    Null,
    Bool(bool),
    Number(Seq<char>, Option<u64>),
    Text(Seq<char>),
    Array,
    Object,
}

impl View for JsonItem {
    type V = JsonItemView;

    open spec fn view(&self) -> JsonItemView {
        match self {
            JsonItem::Absent => JsonItemView::Absent,
            JsonItem::Null => JsonItemView::Null,
            JsonItem::Bool(b) => JsonItemView::Bool(*b),
            JsonItem::Number(t, u) => JsonItemView::Number(t@, *u),
            JsonItem::Text(t) => JsonItemView::Text(t@),
            JsonItem::Array => JsonItemView::Array,
            JsonItem::Object => JsonItemView::Object,
        }
    }
}

/// What `serde_json` reads at JSON Pointer `pointer` (RFC 6901, as
/// `Value::pointer` takes it) in the document `text`: the item there, or
/// the parser's message when `text` is not JSON.
pub uninterp spec fn json_at(text: Seq<char>, pointer: Seq<char>) -> Result<JsonItemView, Seq<char>>;

/// The keys of the object at `pointer` in the document `text`, in document
/// order; `None` when `text` is not JSON or no object is there.
pub uninterp spec fn json_keys(text: Seq<char>, pointer: Seq<char>) -> Option<Seq<Seq<char>>>;

/// The document `text` without member `key` of the object at `pointer` (if
/// an object is there), printed by `serde_json::to_string_pretty` in
/// document order; the parser's message when `text` is not JSON.
pub uninterp spec fn json_without(text: Seq<char>, pointer: Seq<char>, key: Seq<char>) -> Result<
    Seq<char>,
    Seq<char>,
>;

/// `serde_json::from_str` of `text` as a `Value`, then `Value::pointer`:
/// the item at `pointer`, its kind told apart one variant at a time.
#[verifier::external_body]
pub(crate) fn json_lookup(text: &str, pointer: &str) -> (r: Result<JsonItem, String>)
    ensures
        match r {
            Ok(i) => json_at(text@, pointer@) == Ok::<JsonItemView, Seq<char>>(i@),
            Err(e) => json_at(text@, pointer@) == Err::<JsonItemView, Seq<char>>(e@),
        },
{
    let doc: Value = serde_json::from_str(text).map_err(|e| e.to_string())?;
    Ok(match doc.pointer(pointer) {
        None => JsonItem::Absent,
        Some(Value::Null) => JsonItem::Null,
        Some(Value::Bool(b)) => JsonItem::Bool(*b),
        Some(Value::Number(n)) => JsonItem::Number(n.to_string(), n.as_u64()),
        Some(Value::String(s)) => JsonItem::Text(s.clone()),
        Some(Value::Array(_)) => JsonItem::Array,
        Some(Value::Object(_)) => JsonItem::Object,
    })
}

/// The text of an optional list of strings.
pub open spec fn opt_texts(o: Option<Vec<String>>) -> Option<Seq<Seq<char>>> {
    match o {
        Some(v) => Some(v@.map_values(|s: String| s@)),
        None => None,
    }
}

/// `serde_json::from_str`, `Value::pointer` and `Value::as_object`: the
/// keys of the object at `pointer`, in document order.
#[verifier::external_body]
pub(crate) fn json_object_keys(text: &str, pointer: &str) -> (r: Option<Vec<String>>)
    ensures
        opt_texts(r) == json_keys(text@, pointer@),
{
    let doc: Value = serde_json::from_str(text).ok()?;
    Some(doc.pointer(pointer)?.as_object()?.keys().cloned().collect())
}

/// `serde_json::from_str`, `Value::pointer_mut` and `Map::shift_remove`,
/// then `serde_json::to_string_pretty`: the document without one member.
#[verifier::external_body]
pub(crate) fn json_remove(text: &str, pointer: &str, key: &str) -> (r: Result<String, String>)
    ensures
        match r {
            Ok(t) => json_without(text@, pointer@, key@) == Ok::<Seq<char>, Seq<char>>(t@),
            Err(e) => json_without(text@, pointer@, key@) == Err::<Seq<char>, Seq<char>>(e@),
        },
{
    let mut doc: Value = serde_json::from_str(text).map_err(|e| e.to_string())?;
    if let Some(object) = doc.pointer_mut(pointer).and_then(Value::as_object_mut) {
        object.shift_remove(key);
    }
    serde_json::to_string_pretty(&doc).map_err(|e| e.to_string())
}

} // verus!
