//! YAML values and mappings, which `serde_yaml_ng` reads, holds and writes.
//!
//! What a value holds is stated over [`Yaml`], a tree of plain values.

use crate::text::{contains, decimal};
use serde_yaml_ng::{Mapping, Value};
use vstd::prelude::*;

verus! {

/// A YAML mapping: pairs of key and value in the order of insertion.
#[verifier::external_type_specification]
#[verifier::external_body]
pub struct ExMapping(serde_yaml_ng::Mapping);

/// A YAML value.
#[verifier::external_type_specification]
#[verifier::external_body]
pub struct ExValue(serde_yaml_ng::Value);

/// Why YAML could not be read or written.
#[verifier::external_type_specification]
#[verifier::external_body]
pub struct ExYamlError(serde_yaml_ng::Error);

/// What a YAML value holds.
pub enum Yaml {
    Null,
    Bool(bool),
    /// A number, by the text it is written as.
    Number(Seq<char>),
    Text(Seq<char>),
    Sequence(Seq<Yaml>),
    Mapping(Seq<(Yaml, Yaml)>),
    /// A value behind a `!tag`.
    Tagged(Seq<char>, Box<Yaml>),
}

/// The pairs of a YAML mapping, in their order.
pub type Pairs = Seq<(Yaml, Yaml)>;

/// What a mapping holds.
pub uninterp spec fn pairs(m: Mapping) -> Pairs;

/// What a value holds.
pub uninterp spec fn yaml(v: Value) -> Yaml;

/// Whether two values that are not both text are equal, as `Value`'s `==` tells.
pub uninterp spec fn values_equal(a: Yaml, b: Yaml) -> bool;

/// The pairs that a YAML text is read as; `None` where it is no mapping.
pub uninterp spec fn parsed(text: Seq<char>) -> Option<Pairs>;

/// The YAML text that a value is written as; `None` where it cannot be written.
pub uninterp spec fn emitted_value(v: Yaml) -> Option<Seq<char>>;

/// The YAML text that a mapping of some pairs is written as.
pub open spec fn emitted(m: Pairs) -> Option<Seq<char>> {
    emitted_value(Yaml::Mapping(m))
}

/// The text of a value that is a text, a number or a truth value.
pub open spec fn plain_text(v: Yaml) -> Option<Seq<char>> {
    match v {
        Yaml::Text(s) => Some(s),
        Yaml::Number(s) => Some(s),
        Yaml::Bool(b) => Some(
            if b {
                "true"@
            } else {
                "false"@
            },
        ),
        _ => None,
    }
}

/// Whether the last text that a value holds, in its last place, ends otherwise than in a line
/// or paragraph separator. The emitter copies either as the line break it is, with no other
/// behind it, where such a text is written as a block.
pub open spec fn ends_plainly(v: Yaml) -> bool
    decreases v,
{
    match v {
        Yaml::Text(s) => s.len() > 0 ==> s.last() != '\u{2028}' && s.last() != '\u{2029}',
        Yaml::Sequence(items) => items.len() > 0 ==> ends_plainly(items[items.len() - 1]),
        Yaml::Mapping(m) => m.len() > 0 ==> ends_plainly(m[m.len() - 1].1),
        Yaml::Tagged(_, inner) => ends_plainly(*inner),
        _ => true,
    }
}

/// Whether two keys are one: texts by what they say, other values by `==`.
pub open spec fn same_key(a: Yaml, b: Yaml) -> bool {
    if a is Text || b is Text {
        a == b
    } else {
        values_equal(a, b)
    }
}

/// Whether pair `i` has the key.
pub open spec fn key_at(m: Pairs, key: Yaml, i: int) -> bool {
    0 <= i < m.len() && same_key(m[i].0, key)
}

/// Whether pairs have a key.
pub open spec fn has_key(m: Pairs, key: Yaml) -> bool {
    exists|i: int| key_at(m, key, i)
}

/// The first value that pairs give a key.
pub open spec fn value_of(m: Pairs, key: Yaml) -> Option<Yaml>
    decreases m.len(),
{
    if m.len() == 0 {
        None
    } else if same_key(m[0].0, key) {
        Some(m[0].1)
    } else {
        value_of(m.drop_first(), key)
    }
}

/// Pairs with a key given a value: in its place where the key is there, at the end
/// where it is not.
pub open spec fn with_value(m: Pairs, key: Yaml, value: Yaml) -> Pairs
    decreases m.len(),
{
    if m.len() == 0 {
        seq![(key, value)]
    } else if same_key(m[0].0, key) {
        seq![(m[0].0, value)] + m.drop_first()
    } else {
        seq![m[0]] + with_value(m.drop_first(), key, value)
    }
}

/// A value without the tags before it.
pub open spec fn untagged(v: Yaml) -> Yaml
    decreases v,
{
    match v {
        Yaml::Tagged(_, inner) => untagged(*inner),
        _ => v,
    }
}

/// What two key-value lists answer to the same question is the same.
pub proof fn lemma_has_key(m: Pairs, key: Yaml)
    ensures
        has_key(m, key) == value_of(m, key) is Some,
    decreases m.len(),
{
    if m.len() > 0 {
        let rest = m.drop_first();
        lemma_has_key(rest, key);
        if same_key(m[0].0, key) {
            assert(key_at(m, key, 0));
        } else {
            if has_key(rest, key) {
                let i = choose|i: int| key_at(rest, key, i);
                assert(key_at(m, key, i + 1));
            }
            if has_key(m, key) {
                let i = choose|i: int| key_at(m, key, i);
                assert(key_at(rest, key, i - 1));
            }
        }
    }
}

/// A text key that is given a value has it, and no other text key is affected.
pub proof fn lemma_with_value(m: Pairs, key: Seq<char>, value: Yaml, other: Seq<char>)
    ensures
        value_of(with_value(m, Yaml::Text(key), value), Yaml::Text(other)) == if key == other {
            Some(value)
        } else {
            value_of(m, Yaml::Text(other))
        },
    decreases m.len(),
{
    let k = Yaml::Text(key);
    let o = Yaml::Text(other);
    let r = with_value(m, k, value);
    if m.len() == 0 {
        assert(r[0] == (k, value));
        assert(r.drop_first() =~= m);
    } else if same_key(m[0].0, k) {
        assert(r[0] == (m[0].0, value));
        assert(r.drop_first() =~= m.drop_first());
    } else {
        lemma_with_value(m.drop_first(), key, value, other);
        assert(r[0] == m[0]);
        assert(r.drop_first() =~= with_value(m.drop_first(), k, value));
    }
}

/// Whether a mapping has a key.
pub fn contains_key(m: &Mapping, key: &Value) -> (r: bool)
    ensures
        r == has_key(pairs(*m), yaml(*key)),
{
    let mut i: usize = 0;
    let n: usize = mapping_len(m);
    while i < n
        invariant
            i <= n,
            n == pairs(*m).len(),
            forall|j: int| 0 <= j < i ==> !key_at(pairs(*m), yaml(*key), j),
        decreases n - i,
    {
        let (k, v) = pair_at(m, i);
        if same_value(&k, key) {
            assert(key_at(pairs(*m), yaml(*key), i as int));
            return true;
        }
        i = i + 1;
    }
    false
}

// -------------------------------------------------------------- the outside calls

/// `Mapping::new`: a mapping without pairs.
#[verifier::external_body]
pub(crate) fn new_mapping() -> (r: Mapping)
    ensures
        pairs(r) == Seq::<(Yaml, Yaml)>::empty(),
{
    Mapping::new()
}

/// `Mapping::len`: the number of pairs.
#[verifier::external_body]
pub(crate) fn mapping_len(m: &Mapping) -> (r: usize)
    ensures
        r == pairs(*m).len(),
{
    m.len()
}

/// `Mapping::get` with a string: the value whose key is that string (not a tagged
/// one).
#[verifier::external_body]
pub(crate) fn get_text<'a>(m: &'a Mapping, key: &str) -> (r: Option<&'a Value>)
    ensures
        r is Some == value_of(pairs(*m), Yaml::Text(key@)) is Some,
        r matches Some(v) ==> value_of(pairs(*m), Yaml::Text(key@)) == Some(yaml(*v)),
{
    m.get(key)
}

/// `Value`'s `==`. Two texts are equal where they say the same, and a text equals
/// nothing else; of other values the answer is named [`values_equal`].
#[verifier::external_body]
pub(crate) fn same_value(a: &Value, b: &Value) -> (r: bool)
    ensures
        r == if yaml(*a) is Text || yaml(*b) is Text {
            yaml(*a) == yaml(*b)
        } else {
            values_equal(yaml(*a), yaml(*b))
        },
{
    a == b
}

/// `Mapping::insert`: a key that is there keeps its place and its spelling and gets
/// the value; another is added at the end.
#[verifier::external_body]
pub(crate) fn insert(m: &mut Mapping, key: Value, value: Value)
    ensures
        pairs(*final(m)) == with_value(pairs(*old(m)), yaml(key), yaml(value)),
{
    m.insert(key, value);
}

/// `Mapping::iter`: the pairs in the order of insertion; here the `i`th of them,
/// copied out.
#[verifier::external_body]
pub(crate) fn pair_at(m: &Mapping, i: usize) -> (r: (Value, Value))
    requires
        i < pairs(*m).len(),
    ensures
        (yaml(r.0), yaml(r.1)) == pairs(*m)[i as int],
{
    let (k, v) = m.iter().nth(i).unwrap();
    (k.clone(), v.clone())
}

/// `Value::as_str`: the text of a string, whatever tags stand before it.
#[verifier::external_body]
pub(crate) fn as_text(v: &Value) -> (r: Option<&str>)
    ensures
        r is Some == untagged(yaml(*v)) is Text,
        r matches Some(s) ==> untagged(yaml(*v)) == Yaml::Text(s@),
{
    v.as_str()
}

/// The variants of `Value`: the items of a sequence (not a tagged one).
#[verifier::external_body]
pub(crate) fn items_of(v: &Value) -> (r: Option<Vec<Value>>)
    ensures
        r is Some == yaml(*v) is Sequence,
        r matches Some(s) ==> yaml(*v) == Yaml::Sequence(s@.map_values(|i: Value| yaml(i))),
{
    match v {
        Value::Sequence(s) => Some(s.clone()),
        _ => None,
    }
}

/// The variants of `Value`: the text of a string (not a tagged one).
#[verifier::external_body]
pub(crate) fn text_of(v: &Value) -> (r: Option<String>)
    ensures
        r is Some == yaml(*v) is Text,
        r matches Some(s) ==> yaml(*v) == Yaml::Text(s@),
{
    match v {
        Value::String(s) => Some(s.clone()),
        _ => None,
    }
}

/// The variants of `Value`: a number (not a tagged one), as `Number`'s `Display` writes it.
#[verifier::external_body]
pub(crate) fn number_of(v: &Value) -> (r: Option<String>)
    ensures
        r is Some == yaml(*v) is Number,
        r matches Some(s) ==> yaml(*v) == Yaml::Number(s@),
{
    match v {
        Value::Number(n) => Some(n.to_string()),
        _ => None,
    }
}

/// The variants of `Value`: a truth value (not a tagged one).
#[verifier::external_body]
pub(crate) fn truth_of(v: &Value) -> (r: Option<bool>)
    ensures
        r is Some == yaml(*v) is Bool,
        r matches Some(b) ==> yaml(*v) == Yaml::Bool(b),
{
    match v {
        Value::Bool(b) => Some(*b),
        _ => None,
    }
}

/// A text as it is, a number as it is written, a truth value by its name.
pub(crate) fn scalar_of(v: &Value) -> (r: Option<String>)
    ensures
        r is Some == plain_text(yaml(*v)) is Some,
        r matches Some(s) ==> plain_text(yaml(*v)) == Some(s@),
{
    let text = text_of(v);
    if text.is_some() {
        return text;
    }
    let number = number_of(v);
    if number.is_some() {
        return number;
    }
    match truth_of(v) {
        Some(b) => Some(
            (if b {
                "true"
            } else {
                "false"
            }).to_owned(),
        ),
        None => None,
    }
}

/// `Value::is_null`, whatever tags stand before it.
#[verifier::external_body]
pub(crate) fn is_null(v: &Value) -> (r: bool)
    ensures
        r == untagged(yaml(*v)) is Null,
{
    v.is_null()
}

/// `serde_yaml_ng::to_string` of a value: the text it is written as is named
/// [`emitted_value`].
#[verifier::external_body]
pub(crate) fn emit_value(v: &Value) -> (r: Option<String>)
    ensures
        r is Some == emitted_value(yaml(*v)) is Some,
        r matches Some(s) ==> emitted_value(yaml(*v)) == Some(s@),
{
    serde_yaml_ng::to_string(v).ok()
}

/// `Value::from` a string.
#[verifier::external_body]
pub(crate) fn text_value(s: &str) -> (r: Value)
    ensures
        yaml(r) == Yaml::Text(s@),
{
    Value::from(s)
}

/// The variants of `Value`: a sequence of values.
#[verifier::external_body]
pub(crate) fn sequence_value(items: Vec<Value>) -> (r: Value)
    ensures
        yaml(r) == Yaml::Sequence(items@.map_values(|i: Value| yaml(i))),
{
    Value::Sequence(items)
}

/// `Value::from` a number, which is written in decimal.
#[verifier::external_body]
pub(crate) fn number_value(n: u64) -> (r: Value)
    ensures
        yaml(r) == Yaml::Number(decimal(n as nat)),
{
    Value::from(n)
}

/// `serde_yaml_ng::from_str` into a mapping: what the text is read as is named
/// [`parsed`]; the reason of a failure is left out.
#[verifier::external_body]
pub(crate) fn parse(text: &str) -> (r: Option<Mapping>)
    ensures
        r is Some == parsed(text@) is Some,
        r matches Some(m) ==> parsed(text@) == Some(pairs(m)),
{
    serde_yaml_ng::from_str(text).ok()
}

/// `serde_yaml_ng::to_string` of a mapping: the text it is written as is that of the
/// value which holds the mapping, named [`emitted_value`]. No line of it but the first is
/// `---`: what stands at the margin is a key, quoted where it begins with three hyphens, or
/// an item behind its hyphen and a space, and the lines of a text are indented. The end of
/// the document ends the last line, but for one that [`ends_plainly`] leaves out. That the
/// text reads back as the mapping is left unsaid: without its last line break it need not,
/// where a value at its end is a text that ends in one.
#[verifier::external_body]
pub(crate) fn emit(m: &Mapping) -> (r: Result<String, serde_yaml_ng::Error>)
    ensures
        r is Ok == emitted_value(Yaml::Mapping(pairs(*m))) is Some,
        r matches Ok(s) ==> emitted_value(Yaml::Mapping(pairs(*m))) == Some(s@),
        r matches Ok(s) ==> s@.len() > 0 && !contains(s@, "\n---\n"@),
        r matches Ok(s) ==> ends_plainly(Yaml::Mapping(pairs(*m))) ==> s@.last() == '\n',
{
    serde_yaml_ng::to_string(m)
}

/// What a YAML error says, by `Display` of `serde_yaml_ng::Error`. Nothing is claimed of the
/// text: it is a message for people.
#[verifier::external_body]
pub(crate) fn error_text(e: &serde_yaml_ng::Error) -> (r: String) {
    e.to_string()
}

} // verus!
