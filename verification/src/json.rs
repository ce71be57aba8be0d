//! JSON values, as `serde_json` reads them.

use vstd::prelude::*;

verus! {

/// What a JSON value holds.
pub enum Tree {
    Null,
    Bool(bool),
    /// A number; its value where it is written as a whole one, not negative, that
    /// fits sixty-four bits.
    Number(Option<u64>),
    Text(Seq<char>),
    List(Seq<Tree>),
    Object(Map<Seq<char>, Tree>),
}

/// The value type of `serde_json`.
#[verifier::external_type_specification]
#[verifier::external_body]
pub struct ExValue(serde_json::Value);

/// The error type of `serde_json`.
#[verifier::external_type_specification]
#[verifier::external_body]
pub struct ExError(serde_json::Error);

/// What a value holds.
pub uninterp spec fn json_tree(v: serde_json::Value) -> Tree;

/// What `serde_json::from_str` reads from a text; `None` where the text is no
/// JSON.
pub uninterp spec fn json_read(text: Seq<char>) -> Option<Tree>;

/// What a list of values holds.
pub open spec fn trees(v: Seq<serde_json::Value>) -> Seq<Tree> {
    v.map_values(|x: serde_json::Value| json_tree(x))
}

/// The member `key` of an object.
pub open spec fn member_of(t: Tree, key: Seq<char>) -> Option<Tree> {
    match t {
        Tree::Object(m) => if m.contains_key(key) {
            Some(m[key])
        } else {
            None
        },
        _ => None,
    }
}

/// The text of a text.
pub open spec fn text_of(t: Tree) -> Option<Seq<char>> {
    match t {
        Tree::Text(s) => Some(s),
        _ => None,
    }
}

/// The items of a list.
pub open spec fn list_of(t: Tree) -> Option<Seq<Tree>> {
    match t {
        Tree::List(l) => Some(l),
        _ => None,
    }
}

/// The whole number that a number is.
pub open spec fn whole_of(t: Tree) -> Option<u64> {
    match t {
        Tree::Number(n) => n,
        _ => None,
    }
}

/// Calls `serde_json::from_str`, which reads a text or fails. What it reads from
/// which text is left to the name `json_read`.
#[verifier::external_body]
pub(crate) fn read(text: &str) -> (r: Result<serde_json::Value, serde_json::Error>)
    ensures
        match r {
            Ok(v) => json_read(text@) == Some(json_tree(v)),
            Err(_) => json_read(text@) is None,
        },
{
    serde_json::from_str(text)
}

/// Calls `serde_json::Value::get` with a name: the member of that name where the
/// value is an object that has it, else nothing.
#[verifier::external_body]
pub(crate) fn member<'a>(v: &'a serde_json::Value, key: &str) -> (r: Option<&'a serde_json::Value>)
    ensures
        match r {
            Some(x) => member_of(json_tree(*v), key@) == Some(json_tree(*x)),
            None => member_of(json_tree(*v), key@) is None,
        },
{
    v.get(key)
}

/// `serde_json::Value::as_str` gives the text of a text, and of no other value.
pub assume_specification[ serde_json::Value::as_str ](v: &serde_json::Value) -> (r: Option<&str>)
    ensures
        match r {
            Some(s) => text_of(json_tree(*v)) == Some(s@),
            None => text_of(json_tree(*v)) is None,
        },
;

/// `serde_json::Value::as_array` gives the items of a list, and of no other value.
pub assume_specification[ serde_json::Value::as_array ](v: &serde_json::Value) -> (r: Option<
    &Vec<serde_json::Value>,
>)
    ensures
        match r {
            Some(l) => list_of(json_tree(*v)) == Some(trees(l@)),
            None => list_of(json_tree(*v)) is None,
        },
;

/// `serde_json::Value::as_u64` gives the value of a number that is written as a whole
/// one, not negative, and fits sixty-four bits, and nothing for any other value.
pub assume_specification[ serde_json::Value::as_u64 ](v: &serde_json::Value) -> (r: Option<u64>)
    ensures
        r == whole_of(json_tree(*v)),
;

/// The text of the member `key`.
pub open spec fn member_text(t: Tree, key: Seq<char>) -> Option<Seq<char>> {
    match member_of(t, key) {
        Some(x) => text_of(x),
        None => None,
    }
}

/// Finds the text of the member `key`.
pub(crate) fn get_text<'a>(v: &'a serde_json::Value, key: &str) -> (r: Option<&'a str>)
    ensures
        match r {
            Some(s) => member_text(json_tree(*v), key@) == Some(s@),
            None => member_text(json_tree(*v), key@) is None,
        },
{
    match member(v, key) {
        Some(x) => x.as_str(),
        None => None,
    }
}

/// The items of the member `key`.
pub open spec fn member_list(t: Tree, key: Seq<char>) -> Option<Seq<Tree>> {
    match member_of(t, key) {
        Some(x) => list_of(x),
        None => None,
    }
}

/// Finds the items of the member `key`.
pub(crate) fn get_list<'a>(v: &'a serde_json::Value, key: &str) -> (r: Option<
    &'a Vec<serde_json::Value>,
>)
    ensures
        match r {
            Some(l) => member_list(json_tree(*v), key@) == Some(trees(l@)),
            None => member_list(json_tree(*v), key@) is None,
        },
{
    match member(v, key) {
        Some(x) => x.as_array(),
        None => None,
    }
}

} // verus!
