//! JSON documents, as ffprobe and ffmpeg print them.

use crate::text::same_text;
use vstd::prelude::*;

verus! {

/// A JSON document.
#[derive(Debug)]
pub enum Json {
    Null,
    Bool(bool),
    /// A number, as `serde_json` writes it: `1e2` in a document comes as `100.0`.
    Number(String),
    Text(String),
    List(Vec<Json>),
    Object(Vec<(String, Json)>),
}

/// What a [`Json`] document holds.
pub enum Tree {
    Null,
    Bool(bool),
    Number(Seq<char>),
    Text(Seq<char>),
    List(Seq<Tree>),
    Object(Seq<(Seq<char>, Tree)>),
}

impl Json {
    pub open spec fn tree(self) -> Tree
        decreases self,
    {
        match self {
            Json::Null => Tree::Null,
            Json::Bool(b) => Tree::Bool(b),
            Json::Number(s) => Tree::Number(s@),
            Json::Text(s) => Tree::Text(s@),
            Json::List(v) => Tree::List(
                Seq::new(
                    v@.len(),
                    |i: int|
                        if 0 <= i < v@.len() {
                            v@[i].tree()
                        } else {
                            Tree::Null
                        },
                ),
            ),
            Json::Object(v) => Tree::Object(
                Seq::new(
                    v@.len(),
                    |i: int|
                        if 0 <= i < v@.len() {
                            (v@[i].0@, v@[i].1.tree())
                        } else {
                            (Seq::empty(), Tree::Null)
                        },
                ),
            ),
        }
    }
}

/// The value type of the crate `serde_json`.
#[verifier::external_type_specification]
#[verifier::external_body]
pub struct ExValue(serde_json::Value);

/// What a `serde_json::Value` holds.
pub uninterp spec fn value_tree(v: serde_json::Value) -> Tree;

/// The document that `serde_json::from_str` reads from a text, if the text is one.
pub uninterp spec fn document_in_text(text: Seq<char>) -> Option<Tree>;

/// The document that `serde_json::from_slice` reads from bytes, if they are one.
pub uninterp spec fn document_in_bytes(bytes: Seq<u8>) -> Option<Tree>;

/// A `serde_json::Value`, opened by one level.
enum Opened<'a> {
    Null,
    Bool(bool),
    Number(String),
    Text(String),
    List(&'a Vec<serde_json::Value>),
    Object(Vec<(&'a String, &'a serde_json::Value)>),
}

/// What the parts of an opened value make up.
spec fn opened_tree(o: Opened) -> Tree {
    match o {
        Opened::Null => Tree::Null,
        Opened::Bool(b) => Tree::Bool(b),
        Opened::Number(s) => Tree::Number(s@),
        Opened::Text(s) => Tree::Text(s@),
        Opened::List(items) => Tree::List(Seq::new(items@.len(), |i: int| value_tree(items@[i]))),
        Opened::Object(fields) => Tree::Object(
            Seq::new(fields@.len(), |i: int| (fields@[i].0@, value_tree(*fields@[i].1))),
        ),
    }
}

/// Opens a `serde_json::Value` by its variants, whose parts `serde_json` documents: a number is
/// taken as `serde_json` writes it, which need not be how the document spelled it, and an array
/// and an object as the values in them.
#[verifier::external_body]
fn open_value(v: &serde_json::Value) -> (r: Opened<'_>)
    ensures
        opened_tree(r) == value_tree(*v),
{
    match v {
        serde_json::Value::Null => Opened::Null,
        serde_json::Value::Bool(b) => Opened::Bool(*b),
        serde_json::Value::Number(n) => Opened::Number(n.to_string()),
        serde_json::Value::String(s) => Opened::Text(s.clone()),
        serde_json::Value::Array(a) => Opened::List(a),
        serde_json::Value::Object(o) => Opened::Object(o.iter().collect()),
    }
}

/// The parts of a document are smaller than the document.
proof fn lemma_parts_are_smaller(t: Tree, i: int)
    ensures
        t matches Tree::List(items) ==> 0 <= i < items.len() ==> decreases_to!(t => items[i]),
        t matches Tree::Object(fields) ==> 0 <= i < fields.len() ==> decreases_to!(
            t => fields[i].1
        ),
{
    match t {
        Tree::List(items) => {
            if 0 <= i < items.len() {
                assert(decreases_to!(t => t->List_0));
                assert(decreases_to!(t->List_0 => t->List_0[i]));
            }
        },
        Tree::Object(fields) => {
            if 0 <= i < fields.len() {
                assert(decreases_to!(t => t->Object_0));
                assert(decreases_to!(t->Object_0 => t->Object_0[i]));
                assert(decreases_to!(t->Object_0[i] => t->Object_0[i].1));
            }
        },
        _ => {},
    }
}

/// Takes a `serde_json::Value` over.
fn from_value(v: &serde_json::Value) -> (r: Json)
    ensures
        r.tree() == value_tree(*v),
    decreases value_tree(*v),
{
    match open_value(v) {
        Opened::Null => Json::Null,
        Opened::Bool(b) => Json::Bool(b),
        Opened::Number(s) => Json::Number(s),
        Opened::Text(s) => Json::Text(s),
        Opened::List(items) => {
            let ghost parts = value_tree(*v)->List_0;
            let mut list: Vec<Json> = Vec::new();
            let mut i: usize = 0;
            while i < items.len()
                invariant
                    i <= items@.len(),
                    value_tree(*v) == Tree::List(parts),
                    parts == Seq::new(items@.len(), |i: int| value_tree(items@[i])),
                    list@.len() == i,
                    forall|k: int| 0 <= k < i ==> (#[trigger] list@[k]).tree() == parts[k],
                decreases items.len() - i,
            {
                proof {
                    lemma_parts_are_smaller(value_tree(*v), i as int);
                }
                list.push(from_value(&items[i]));
                i += 1;
            }
            let r = Json::List(list);
            assert(r.tree()->List_0 =~= parts);
            r
        },
        Opened::Object(fields) => {
            let ghost parts = value_tree(*v)->Object_0;
            let mut list: Vec<(String, Json)> = Vec::new();
            let mut i: usize = 0;
            while i < fields.len()
                invariant
                    i <= fields@.len(),
                    value_tree(*v) == Tree::Object(parts),
                    parts == Seq::new(
                        fields@.len(),
                        |i: int| (fields@[i].0@, value_tree(*fields@[i].1)),
                    ),
                    list@.len() == i,
                    forall|k: int|
                        0 <= k < i ==> ((#[trigger] list@[k]).0@, list@[k].1.tree()) == parts[k],
                decreases fields.len() - i,
            {
                proof {
                    lemma_parts_are_smaller(value_tree(*v), i as int);
                }
                list.push((fields[i].0.clone(), from_value(fields[i].1)));
                i += 1;
            }
            let r = Json::Object(list);
            assert(r.tree()->Object_0 =~= parts);
            r
        },
    }
}

/// Calls `serde_json::from_str` for a `serde_json::Value`. Whether the text is a document,
/// and which, rests on the text alone; what JSON is, is left to the crate.
#[verifier::external_body]
fn value_from_str(text: &str) -> (r: Option<serde_json::Value>)
    ensures
        match r {
            Some(v) => document_in_text(text@) == Some(value_tree(v)),
            None => document_in_text(text@) is None,
        },
{
    serde_json::from_str(text).ok()
}

/// Calls `serde_json::from_slice` for a `serde_json::Value`. Whether the bytes are a
/// document, and which, rests on the bytes alone; what JSON is, is left to the crate.
#[verifier::external_body]
fn value_from_slice(bytes: &Vec<u8>) -> (r: Option<serde_json::Value>)
    ensures
        match r {
            Some(v) => document_in_bytes(bytes@) == Some(value_tree(v)),
            None => document_in_bytes(bytes@) is None,
        },
{
    serde_json::from_slice(bytes).ok()
}

/// What an optional document holds.
pub open spec fn tree_in(r: Option<Json>) -> Option<Tree> {
    match r {
        Some(j) => Some(j.tree()),
        None => None,
    }
}

/// Reads a document from a text.
pub fn parse_text(text: &str) -> (r: Option<Json>)
    ensures
        tree_in(r) == document_in_text(text@),
{
    match value_from_str(text) {
        Some(v) => Some(from_value(&v)),
        None => None,
    }
}

/// Reads a document from bytes.
pub fn parse_bytes(bytes: &Vec<u8>) -> (r: Option<Json>)
    ensures
        tree_in(r) == document_in_bytes(bytes@),
{
    match value_from_slice(bytes) {
        Some(v) => Some(from_value(&v)),
        None => None,
    }
}

// ─── Looking up ────────────────────────────────────────────────

/// The first of the fields that has the key, from `i` on.
pub open spec fn find_field(fields: Seq<(Seq<char>, Tree)>, key: Seq<char>, i: int) -> Option<Tree>
    decreases fields.len() - i,
{
    if i < 0 || i >= fields.len() {
        None
    } else if fields[i].0 == key {
        Some(fields[i].1)
    } else {
        find_field(fields, key, i + 1)
    }
}

/// The field of an object; `None` for other documents and missing fields.
pub open spec fn field(t: Tree, key: Seq<char>) -> Option<Tree> {
    match t {
        Tree::Object(fields) => find_field(fields, key, 0),
        _ => None,
    }
}

/// The text in a field.
pub open spec fn text_field(t: Tree, key: Seq<char>) -> Option<Seq<char>> {
    match field(t, key) {
        Some(Tree::Text(s)) => Some(s),
        _ => None,
    }
}

/// The list in a field.
pub open spec fn list_field(t: Tree, key: Seq<char>) -> Option<Seq<Tree>> {
    match field(t, key) {
        Some(Tree::List(v)) => Some(v),
        _ => None,
    }
}

impl Json {
    /// The field of an object; `None` for other documents and missing fields.
    pub fn get(&self, key: &str) -> (r: Option<&Json>)
        ensures
            match r {
                Some(j) => field(self.tree(), key@) == Some(j.tree()),
                None => field(self.tree(), key@) is None,
            },
    {
        match self {
            Json::Object(fields) => {
                let ghost all = self.tree()->Object_0;
                let mut i: usize = 0;
                while i < fields.len()
                    invariant
                        i <= fields@.len(),
                        *self == Json::Object(*fields),
                        all == self.tree()->Object_0,
                        field(self.tree(), key@) == find_field(all, key@, i as int),
                    decreases fields.len() - i,
                {
                    let f = &fields[i];
                    assert(all[i as int] == (f.0@, f.1.tree()));
                    if same_text(f.0.as_str(), key) {
                        return Some(&f.1);
                    }
                    i += 1;
                }
                None
            },
            _ => None,
        }
    }

    /// The text in a field.
    pub fn text_at(&self, key: &str) -> (r: Option<String>)
        ensures
            match r {
                Some(s) => text_field(self.tree(), key@) == Some(s@),
                None => text_field(self.tree(), key@) is None,
            },
    {
        match self.get(key) {
            Some(Json::Text(s)) => Some(s.clone()),
            _ => None,
        }
    }
}

} // verus!
