//! The tree form carries a `serde_json::Value`. The library builds one from
//! plain parts; what a value holds is described by `JsonModel`.

use vstd::prelude::*;

verus! {

#[verifier::external_type_specification]
#[verifier::external_body]
pub struct ExJsonValue(serde_json::Value);

/// What a json value holds: a string, an array, an object mapping keys to
/// values, or some other scalar (number, boolean, null).
pub enum JsonModel {
    Str(Seq<char>),
    Arr(Seq<JsonModel>),
    Obj(Map<Seq<char>, JsonModel>),
    Scalar,
}

/// What the `serde_json::Value` `v` holds.
pub uninterp spec fn json_contents(v: serde_json::Value) -> JsonModel;

/// `Clone` for `serde_json::Value` (derived in serde_json): the copy holds what
/// the original holds.
pub assume_specification[ <serde_json::Value as Clone>::clone ](v: &serde_json::Value) -> (r: serde_json::Value)
    ensures
        json_contents(r) == json_contents(*v),
;

/// What each of a sequence of values holds.
pub open spec fn contents_of(items: Seq<serde_json::Value>) -> Seq<JsonModel> {
    items.map_values(|v: serde_json::Value| json_contents(v))
}

/// Keys and what their values hold.
pub open spec fn entry_contents(entries: Seq<(String, serde_json::Value)>) -> Seq<(Seq<char>, JsonModel)> {
    entries.map_values(|e: (String, serde_json::Value)| (e.0@, json_contents(e.1)))
}

/// The object made by setting the keys in order (a later key replaces an
/// earlier one).
pub open spec fn pairs_map(s: Seq<(Seq<char>, JsonModel)>) -> Map<Seq<char>, JsonModel>
    decreases s.len(),
{
    if s.len() == 0 {
        Map::empty()
    } else {
        pairs_map(s.drop_last()).insert(s.last().0, s.last().1)
    }
}

/// No key occurs twice among the entries.
pub open spec fn keys_distinct(entries: Seq<(String, serde_json::Value)>) -> bool {
    forall|i: int, j: int| 0 <= i < j < entries.len() ==> entries[i].0@ != entries[j].0@
}

/// `serde_json::Value::String(s)`: a value holding the string `s`.
#[verifier::external_body]
pub(crate) fn json_string(s: String) -> (r: serde_json::Value)
    ensures
        json_contents(r) == JsonModel::Str(s@),
{
    serde_json::Value::String(s)
}

/// `serde_json::Value::Array(items)`: a value holding the items in order.
#[verifier::external_body]
pub(crate) fn json_array(items: Vec<serde_json::Value>) -> (r: serde_json::Value)
    ensures
        json_contents(r) == JsonModel::Arr(contents_of(items@)),
{
    serde_json::Value::Array(items)
}

/// `serde_json::Value::Object` of a `serde_json::Map` collected from the
/// entries (`FromIterator`). When no key repeats, the object maps each key to
/// its value; nothing is stated of which value a repeated key keeps.
#[verifier::external_body]
pub(crate) fn json_object(entries: Vec<(String, serde_json::Value)>) -> (r: serde_json::Value)
    ensures
        keys_distinct(entries@) ==> json_contents(r) == JsonModel::Obj(
            pairs_map(entry_contents(entries@)),
        ),
{
    serde_json::Value::Object(entries.into_iter().collect())
}

} // verus!
