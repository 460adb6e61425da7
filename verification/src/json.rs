//! JSON values, which `serde_json` holds and writes.
//!
//! What a value holds is stated over [`Json`], a tree of plain values.

use crate::text::texts;
use serde_json::Value;
use vstd::prelude::*;

verus! {

/// A JSON value.
#[verifier::external_type_specification]
#[verifier::external_body]
pub struct ExJsonValue(serde_json::Value);

/// The members of a JSON object.
#[verifier::external_type_specification]
#[verifier::external_body]
#[verifier::reject_recursive_types(K)]
#[verifier::reject_recursive_types(V)]
pub struct ExJsonMap<K, V>(serde_json::Map<K, V>);

/// Why JSON could not be written.
#[verifier::external_type_specification]
#[verifier::external_body]
pub struct ExJsonError(serde_json::Error);

/// What a JSON value holds.
pub enum Json {
    Text(Seq<char>),
    Number(nat),
    Array(Seq<Json>),
    Object(Map<Seq<char>, Json>),
}

/// What a value holds, where it is a text, a natural number, or an array or an object of
/// such values.
pub uninterp spec fn json(v: Value) -> Json;

/// What the members of an object hold.
pub uninterp spec fn json_members(m: serde_json::Map<String, Value>) -> Map<Seq<char>, Json>;

/// The text that a value is written as; `None` where it cannot be written.
pub uninterp spec fn json_text(v: Json) -> Option<Seq<char>>;

/// The members of an object of some pairs: of two with one key the later counts.
pub open spec fn members(ps: Seq<(Seq<char>, Json)>) -> Map<Seq<char>, Json>
    decreases ps.len(),
{
    if ps.len() == 0 {
        Map::empty()
    } else {
        members(ps.drop_last()).insert(ps.last().0, ps.last().1)
    }
}

/// An object of some pairs.
pub open spec fn object(ps: Seq<(Seq<char>, Json)>) -> Json {
    Json::Object(members(ps))
}

/// An array of texts.
pub open spec fn text_array(ts: Seq<Seq<char>>) -> Json {
    Json::Array(ts.map_values(|t: Seq<char>| Json::Text(t)))
}

/// What some pairs hold.
pub open spec fn pairs_view(v: Seq<(String, Value)>) -> Seq<(Seq<char>, Json)> {
    v.map_values(|p: (String, Value)| (p.0@, json(p.1)))
}

/// `Value::String`.
#[verifier::external_body]
pub(crate) fn string_value(s: &str) -> (r: Value)
    ensures
        json(r) == Json::Text(s@),
{
    Value::String(s.to_owned())
}

/// `Value::from` a natural number.
#[verifier::external_body]
pub(crate) fn number_value(n: u64) -> (r: Value)
    ensures
        json(r) == Json::Number(n as nat),
{
    Value::from(n)
}

/// `Value::Array`.
#[verifier::external_body]
pub(crate) fn array_value(items: Vec<Value>) -> (r: Value)
    ensures
        json(r) == Json::Array(items@.map_values(|v: Value| json(v))),
{
    Value::Array(items)
}

/// `serde_json::Map::new`: there are no members.
#[verifier::external_body]
pub(crate) fn no_members() -> (r: serde_json::Map<String, Value>)
    ensures
        json_members(r) == members(Seq::empty()),
{
    serde_json::Map::new()
}

/// `serde_json::Map::insert`: the value of the key is the new one, whether or not it had one.
#[verifier::external_body]
pub(crate) fn add_member(m: &mut serde_json::Map<String, Value>, key: String, value: Value)
    ensures
        json_members(*final(m)) == json_members(*old(m)).insert(key@, json(value)),
{
    m.insert(key, value);
}

/// `Value::Object`.
#[verifier::external_body]
pub(crate) fn members_value(m: serde_json::Map<String, Value>) -> (r: Value)
    ensures
        json(r) == Json::Object(json_members(m)),
{
    Value::Object(m)
}

/// An object of some pairs: of two with one key the later counts.
pub fn object_value(items: Vec<(String, Value)>) -> (r: Value)
    ensures
        json(r) == object(pairs_view(items@)),
{
    let ghost all = pairs_view(items@);
    let mut m = no_members();
    let mut rest = items;
    assert(all.take(0) =~= Seq::empty());
    assert(rest@ =~= items@.skip(0));
    while rest.len() > 0
        invariant
            all == pairs_view(items@),
            rest@.len() <= items@.len(),
            rest@ == items@.skip(items@.len() - rest@.len()),
            json_members(m) == members(all.take(items@.len() - rest@.len())),
        decreases rest@.len(),
    {
        let ghost n = items@.len() - rest@.len();
        let (key, value) = rest.remove(0);
        proof {
            assert(all.take(n + 1).drop_last() =~= all.take(n));
            assert(all.take(n + 1).last() == all[n]);
            assert(rest@ =~= items@.skip(n + 1));
        }
        add_member(&mut m, key, value);
    }
    assert(all.take(all.len() as int) =~= all);
    members_value(m)
}

/// `serde_json::to_string`: what a value is written as is named [`json_text`].
#[verifier::external_body]
pub(crate) fn write_json(v: &Value) -> (r: Result<String, serde_json::Error>)
    ensures
        r is Ok == json_text(json(*v)) is Some,
        r matches Ok(s) ==> json_text(json(*v)) == Some(s@),
{
    serde_json::to_string(v)
}

/// An array of texts.
pub fn text_array_value(ts: &Vec<String>) -> (r: Value)
    ensures
        json(r) == text_array(texts(ts@)),
{
    let mut items: Vec<Value> = Vec::new();
    let mut i: usize = 0;
    while i < ts.len()
        invariant
            i <= ts@.len(),
            items@.len() == i,
            forall|k: int| 0 <= k < i ==> json(#[trigger] items@[k]) == Json::Text(ts@[k]@),
        decreases ts.len() - i,
    {
        items.push(string_value(ts[i].as_str()));
        i = i + 1;
    }
    proof {
        let a = items@.map_values(|v: Value| json(v));
        let b = texts(ts@).map_values(|t: Seq<char>| Json::Text(t));
        assert(a =~= b);
    }
    array_value(items)
}

/// What an error of `serde_json` says, which its `to_string` gives. Nothing is stated of the
/// text.
#[verifier::external_body]
pub(crate) fn error_text(e: &serde_json::Error) -> (r: String) {
    e.to_string()
}

/// Adds a pair to some.
pub fn push_pair(items: &mut Vec<(String, Value)>, key: &str, value: Value)
    ensures
        pairs_view(final(items)@) == pairs_view(old(items)@).push((key@, json(value))),
{
    let ghost before = items@;
    items.push((key.to_owned(), value));
    assert(pairs_view(items@) =~= pairs_view(before).push((key@, json(value))));
}

} // verus!
