//! The JSON tree and its mathematical model.

use vstd::prelude::*;

verus! {

/// A JSON value. A number holds its text as it is written; an object holds
/// its members in the order in which they were put in. A tree is well formed
/// where no object holds a key twice; the edits keep it so.
#[derive(Debug, PartialEq, Eq)]
pub enum JsonValue {
    Null,
    Bool(bool),
    Number(String),
    String(String),
    Array(Vec<JsonValue>),
    Object(Vec<(String, JsonValue)>),
}

/// The model of a JSON value.
pub enum Json {
    Null,
    Bool(bool),
    Number(Seq<char>),
    Text(Seq<char>),
    Array(Seq<Json>),
    Object(Seq<(Seq<char>, Json)>),
}

impl JsonValue {
    /// The model of the value.
    pub open spec fn view(&self) -> Json
        decreases self,
    {
        match self {
            JsonValue::Null => Json::Null,
            JsonValue::Bool(b) => Json::Bool(*b),
            JsonValue::Number(n) => Json::Number(n@),
            JsonValue::String(s) => Json::Text(s@),
            JsonValue::Array(items) => Json::Array(
                Seq::new(
                    items@.len(),
                    |i: int|
                        if 0 <= i < items@.len() {
                            items@[i].view()
                        } else {
                            Json::Null
                        },
                ),
            ),
            JsonValue::Object(members) => Json::Object(
                Seq::new(
                    members@.len(),
                    |i: int|
                        if 0 <= i < members@.len() {
                            (members@[i].0@, members@[i].1.view())
                        } else {
                            (Seq::empty(), Json::Null)
                        },
                ),
            ),
        }
    }
}

/// No two members have the same key.
pub open spec fn unique_keys(members: Seq<(Seq<char>, Json)>) -> bool {
    forall|i: int, j: int| 0 <= i < j < members.len() ==> members[i].0 != members[j].0
}

/// Every object of the tree holds each of its keys once.
pub open spec fn well_formed(j: Json) -> bool
    decreases j,
{
    match j {
        Json::Array(items) => forall|i: int| 0 <= i < items.len() ==> well_formed(#[trigger] items[i]),
        Json::Object(members) => unique_keys(members) && forall|i: int|
            0 <= i < members.len() ==> well_formed((#[trigger] members[i]).1),
        _ => true,
    }
}

/// The models of a list of values.
pub open spec fn values_view(items: Seq<JsonValue>) -> Seq<Json> {
    Seq::new(items.len(), |i: int| items[i]@)
}

/// The models of a list of members.
pub open spec fn members_view(members: Seq<(String, JsonValue)>) -> Seq<(Seq<char>, Json)> {
    Seq::new(members.len(), |i: int| (members[i].0@, members[i].1@))
}

/// The model of an array is the models of its items.
pub proof fn lemma_array_view(items: Vec<JsonValue>)
    ensures
        JsonValue::Array(items)@ == Json::Array(values_view(items@)),
{
    assert(JsonValue::Array(items)@->Array_0 =~= values_view(items@));
}

/// The model of an object is the models of its members.
pub proof fn lemma_object_view(members: Vec<(String, JsonValue)>)
    ensures
        JsonValue::Object(members)@ == Json::Object(members_view(members@)),
{
    assert(JsonValue::Object(members)@->Object_0 =~= members_view(members@));
}

/// Appending a value appends its model.
pub proof fn lemma_values_view_push(before: Seq<JsonValue>, v: JsonValue)
    ensures
        values_view(before.push(v)) == values_view(before).push(v@),
{
    assert(values_view(before.push(v)) =~= values_view(before).push(v@));
}

/// Appending a member appends its model.
pub proof fn lemma_members_view_push(before: Seq<(String, JsonValue)>, k: String, v: JsonValue)
    ensures
        members_view(before.push((k, v))) == members_view(before).push((k@, v@)),
{
    assert(members_view(before.push((k, v))) =~= members_view(before).push((k@, v@)));
}

/// A copy of a value.
#[verifier::loop_isolation(false)]
pub fn clone_value(v: &JsonValue) -> (r: JsonValue)
    ensures
        r@ == v@,
    decreases v,
{
    match v {
        JsonValue::Null => JsonValue::Null,
        JsonValue::Bool(b) => JsonValue::Bool(*b),
        JsonValue::Number(n) => JsonValue::Number(n.clone()),
        JsonValue::String(s) => JsonValue::String(s.clone()),
        JsonValue::Array(items) => {
            let mut out: Vec<JsonValue> = Vec::new();
            let mut i: usize = 0;
            while i < items.len()
                invariant
                    i <= items.len(),
                    values_view(out@) == values_view(items@).take(i as int),
                decreases items.len() - i,
            {
                let c = clone_value(&items[i]);
                out.push(c);
                assert(values_view(out@) =~= values_view(items@).take(i + 1));
                i += 1;
            }
            proof {
                assert(values_view(items@).take(items@.len() as int) =~= values_view(items@));
                lemma_array_view(out);
                lemma_array_view(*items);
            }
            JsonValue::Array(out)
        },
        JsonValue::Object(members) => {
            let mut out: Vec<(String, JsonValue)> = Vec::new();
            let mut i: usize = 0;
            while i < members.len()
                invariant
                    i <= members.len(),
                    members_view(out@) == members_view(members@).take(i as int),
                decreases members.len() - i,
            {
                let c = clone_value(&members[i].1);
                out.push((members[i].0.clone(), c));
                assert(members_view(out@) =~= members_view(members@).take(i + 1));
                i += 1;
            }
            proof {
                assert(members_view(members@).take(members@.len() as int) =~= members_view(
                    members@,
                ));
                lemma_object_view(out);
                lemma_object_view(*members);
            }
            JsonValue::Object(out)
        },
    }
}

} // verus!
