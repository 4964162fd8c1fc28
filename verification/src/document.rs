//! Documents: JSON and RON texts, and the value trees that they hold.
use serde_json::Value as JsonTree;
use vstd::prelude::*;
use vstd::string::*;

use crate::dict::Dict;
use crate::value;
use crate::value::{Json, Number, Value};

verus! {

/// The tree that the parsers give.
#[verifier::external_type_specification]
#[verifier::external_body]
pub struct ExJsonTree(JsonTree);

/// What a tree of the parsers holds.
pub uninterp spec fn tree_content(tree: JsonTree) -> Json;

/// A tree of the parsers, seen one level deep.
enum Node<'a> {
    Null,
    Bool(bool),
    Number(Number),
    String(&'a String),
    Array(&'a Vec<JsonTree>),
    Object(Vec<(&'a String, &'a JsonTree)>),
}

/// Whether `fields` are the entries of an object, each key once.
spec fn are_fields(fields: Seq<(&String, &JsonTree)>, map: Map<Seq<char>, Json>) -> bool {
    &&& forall|i: int, j: int|
        0 <= i < j < fields.len() ==> (#[trigger] fields[i]).0@ != (#[trigger] fields[j]).0@
    &&& forall|i: int|
        0 <= i < fields.len() ==> map.contains_key((#[trigger] fields[i]).0@)
            && map[fields[i].0@] == tree_content(*fields[i].1)
    &&& forall|key: Seq<char>| #[trigger]
        map.contains_key(key) ==> exists|i: int|
            0 <= i < fields.len() && (#[trigger] fields[i]).0@ == key
}

/// One level of a tree, as the variants of `serde_json::Value` tell. A number is what
/// `Number::as_u64`, `as_i64` and `as_f64` make of it, in this order: a non-negative integer, a
/// negative one, or the bits of a float.
#[verifier::external_body]
fn open_tree<'a>(tree: &'a JsonTree) -> (node: Node<'a>)
    ensures
        match node {
            Node::Null => tree_content(*tree) == Json::Null,
            Node::Bool(b) => tree_content(*tree) == Json::Bool(b),
            Node::Number(n) => tree_content(*tree) == Json::Number(n),
            Node::String(s) => tree_content(*tree) == Json::String(s@),
            Node::Array(items) => tree_content(*tree) == Json::Array(
                items@.map_values(|item: JsonTree| tree_content(item)),
            ),
            Node::Object(fields) => tree_content(*tree) is Object && are_fields(
                fields@,
                tree_content(*tree)->Object_0,
            ),
        },
{
    match tree {
        JsonTree::Null => Node::Null,
        JsonTree::Bool(b) => Node::Bool(*b),
        JsonTree::Number(n) => Node::Number(match (n.as_u64(), n.as_i64()) {
            (Some(u), _) => Number::PosInt(u),
            (None, Some(i)) => Number::NegInt(i),
            (None, None) => Number::Float(n.as_f64().unwrap_or_default().to_bits()),
        }),
        JsonTree::String(s) => Node::String(s),
        JsonTree::Array(items) => Node::Array(items),
        JsonTree::Object(fields) => Node::Object(fields.iter().collect()),
    }
}

/// The value tree that a tree of the parsers holds.
#[must_use]
pub fn from_tree(tree: &JsonTree) -> (read: Value)
    ensures
        read@ == tree_content(*tree),
    decreases tree_content(*tree),
{
    let ghost content = tree_content(*tree);
    match open_tree(tree) {
        Node::Null => Value::Null,
        Node::Bool(b) => Value::Bool(b),
        Node::Number(n) => Value::Number(n),
        Node::String(s) => Value::String(s.clone()),
        Node::Array(items) => {
            let mut list: Vec<Value> = Vec::new();
            let mut i: usize = 0;
            while i < items.len()
                invariant
                    i <= items.len(),
                    content == tree_content(*tree),
                    content == Json::Array(items@.map_values(|item: JsonTree| tree_content(item))),
                    list.len() == i,
                    forall|j: int| 0 <= j < i ==> (#[trigger] list@[j])@ == tree_content(items@[j]),
                decreases items.len() - i,
            {
                proof {
                    assert(content->Array_0[i as int] == tree_content(items@[i as int]));
                    assert(decreases_to!(content => content->Array_0));
                    assert(decreases_to!(content->Array_0 => content->Array_0[i as int]));
                }
                list.push(from_tree(&items[i]));
                i += 1;
            }
            assert(value::items_view(list@) =~= content->Array_0);
            Value::Array(list)
        },
        Node::Object(fields) => {
            let ghost map = content->Object_0;
            let mut dict: Dict<Value> = Dict::new();
            let mut i: usize = 0;
            while i < fields.len()
                invariant
                    i <= fields.len(),
                    content == tree_content(*tree),
                    content == Json::Object(map),
                    are_fields(fields@, map),
                    forall|key: Seq<char>| #[trigger]
                        dict@.contains_key(key) <==> exists|j: int|
                            0 <= j < i && (#[trigger] fields@[j]).0@ == key,
                    forall|key: Seq<char>| #[trigger]
                        dict@.contains_key(key) ==> map.contains_key(key) && dict@[key]@
                            == map[key],
                decreases fields.len() - i,
            {
                let ghost before = dict@;
                let field = &fields[i];
                let ghost key = field.0@;
                proof {
                    assert(fields@[i as int].0@ == key);
                    assert(map[key] == tree_content(*field.1));
                    assert(decreases_to!(content => content->Object_0[key]));
                }
                let item = from_tree(field.1);
                dict.insert(field.0.clone(), item);
                proof {
                    assert forall|k: Seq<char>| #[trigger] dict@.contains_key(k) <==> exists|j: int|
                        0 <= j < i + 1 && (#[trigger] fields@[j]).0@ == k by {
                        if k == key {
                            assert(fields@[i as int].0@ == k);
                        } else if before.contains_key(k) {
                            let j = choose|j: int| 0 <= j < i && (#[trigger] fields@[j]).0@ == k;
                            assert(fields@[j].0@ == k);
                        }
                    }
                }
                i += 1;
            }
            assert(value::dict_view(dict) =~= map);
            Value::Object(dict)
        },
    }
}

/// What a JSON text holds, or why it cannot be read.
pub uninterp spec fn json_document(text: Seq<char>) -> Result<Json, Seq<char>>;

/// What a RON text holds, or why it cannot be read.
pub uninterp spec fn ron_document(text: Seq<char>) -> Result<Json, Seq<char>>;

/// Reads a JSON text with `serde_json::from_str`. The tree it gives, or the message of its error,
/// depends on the text alone.
#[verifier::external_body]
fn read_json(text: &str) -> (tree: Result<JsonTree, String>)
    ensures
        match tree {
            Ok(t) => json_document(text@) == Ok::<Json, Seq<char>>(tree_content(t)),
            Err(e) => json_document(text@) == Err::<Json, Seq<char>>(e@),
        },
{
    serde_json::from_str::<JsonTree>(text).map_err(|e| e.to_string())
}

/// Reads a RON text with `ron::from_str`. The tree it gives, or the message of its error, depends
/// on the text alone.
#[verifier::external_body]
fn read_ron(text: &str) -> (tree: Result<JsonTree, String>)
    ensures
        match tree {
            Ok(t) => ron_document(text@) == Ok::<Json, Seq<char>>(tree_content(t)),
            Err(e) => ron_document(text@) == Err::<Json, Seq<char>>(e@),
        },
{
    ron::from_str::<JsonTree>(text).map_err(|e| e.to_string())
}

/// Whether reading a document gives `parsed`.
pub open spec fn is_document(document: Result<Json, Seq<char>>, parsed: Result<Value, String>) -> bool {
    match parsed {
        Ok(v) => document == Ok::<Json, Seq<char>>(v@),
        Err(e) => document == Err::<Json, Seq<char>>(e@),
    }
}

/// The value tree that a JSON text holds, or why it cannot be read.
pub fn parse_json(text: &str) -> (parsed: Result<Value, String>)
    ensures
        is_document(json_document(text@), parsed),
{
    match read_json(text) {
        Ok(tree) => Ok(from_tree(&tree)),
        Err(e) => Err(e),
    }
}

/// The value tree that a RON text holds, or why it cannot be read.
pub fn parse_ron(text: &str) -> (parsed: Result<Value, String>)
    ensures
        is_document(ron_document(text@), parsed),
{
    match read_ron(text) {
        Ok(tree) => Ok(from_tree(&tree)),
        Err(e) => Err(e),
    }
}

/// A text that can be read gives what it holds, and one that cannot gives the reason; JSON and RON
/// texts are each read as such, and reading twice gives the same.
pub proof fn documents_give_what_they_hold(
    text: &str,
    json: Result<Value, String>,
    ron: Result<Value, String>,
    again: Result<Value, String>,
)
    requires
        call_ensures(parse_json, (text,), json),
        call_ensures(parse_ron, (text,), ron),
        call_ensures(parse_json, (text,), again),
    ensures
        json is Ok <==> json_document(text@) is Ok,
        json is Ok ==> json->Ok_0@ == json_document(text@)->Ok_0,
        json is Err ==> json->Err_0@ == json_document(text@)->Err_0,
        ron is Ok <==> ron_document(text@) is Ok,
        ron is Ok ==> ron->Ok_0@ == ron_document(text@)->Ok_0,
        ron is Err ==> ron->Err_0@ == ron_document(text@)->Err_0,
        again is Ok <==> json is Ok,
        json is Ok ==> again->Ok_0@ == json->Ok_0@,
{
}

} // verus!
