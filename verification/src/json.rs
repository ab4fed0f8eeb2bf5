//! A self-contained JSON value type.
//!
//! Trait documents, schema annotations and resolved claim values are all
//! carried as [`JsonValue`]. Numbers keep their decimal source text, so the
//! type stays exact and the engine never inspects them. The mathematical
//! model of a value is [`JsonModel`], built from sequences.

use vstd::prelude::*;

verus! {

/// The mathematical model of a JSON value: what contracts speak about.
pub enum JsonModel {
    Null,
    Bool(bool),
    Number(Seq<char>),
    Text(Seq<char>),
    Array(Seq<JsonModel>),
    Object(Seq<(Seq<char>, JsonModel)>),
}

/// A JSON value. Object member order is kept as given; numbers are kept as
/// their decimal source text.
#[derive(Debug, PartialEq, Eq)]
pub enum JsonValue {
    Null,
    Bool(bool),
    Number(String),
    Text(String),
    Array(Vec<JsonValue>),
    Object(Vec<(String, JsonValue)>),
}

/// The model of a JSON value.
pub open spec fn json_model(v: JsonValue) -> JsonModel
    decreases v, 2int,
{
    match v {
        JsonValue::Null => JsonModel::Null,
        JsonValue::Bool(b) => JsonModel::Bool(b),
        JsonValue::Number(s) => JsonModel::Number(s@),
        JsonValue::Text(s) => JsonModel::Text(s@),
        JsonValue::Array(items) => JsonModel::Array(json_model_seq(items@)),
        JsonValue::Object(entries) => JsonModel::Object(json_model_entries(entries@)),
    }
}

/// The models of a sequence of JSON values, element by element.
pub open spec fn json_model_seq(s: Seq<JsonValue>) -> Seq<JsonModel>
    decreases s, 1int,
{
    if s.len() == 0 {
        Seq::empty()
    } else {
        seq![json_model(s[0])] + json_model_seq(s.drop_first())
    }
}

/// The models of a sequence of JSON object members, member by member.
pub open spec fn json_model_entries(s: Seq<(String, JsonValue)>) -> Seq<(Seq<char>, JsonModel)>
    decreases s, 1int,
{
    if s.len() == 0 {
        Seq::empty()
    } else {
        seq![(s[0].0@, json_model(s[0].1))] + json_model_entries(s.drop_first())
    }
}

impl View for JsonValue {
    type V = JsonModel;

    open spec fn view(&self) -> JsonModel {
        json_model(*self)
    }
}

impl Clone for JsonValue {
    /// A deep copy with the same model.
    #[verifier::loop_isolation(false)]
    fn clone(&self) -> (r: Self)
        ensures
            r@ == self@,
        decreases *self,
    {
        match self {
            JsonValue::Null => JsonValue::Null,
            JsonValue::Bool(b) => JsonValue::Bool(*b),
            JsonValue::Number(s) => JsonValue::Number(s.clone()),
            JsonValue::Text(s) => JsonValue::Text(s.clone()),
            JsonValue::Array(items) => {
                let n: usize = items.len();
                let mut out: Vec<JsonValue> = Vec::new();
                let mut i: usize = 0;
                while i < n
                    invariant
                        0 <= i <= n,
                        n == items@.len(),
                        out@.len() == i,
                        forall|j: int| 0 <= j < i ==> out@[j]@ == items@[j]@,
                    decreases n - i,
                {
                    proof {
                        assert(decreases_to!(*self => self->Array_0));
                        assert(self->Array_0 == *items);
                        assert(decreases_to!(*items => items[i as int]));
                    }
                    out.push(items[i].clone());
                    i = i + 1;
                }
                proof {
                    lemma_json_model_seq(items@);
                    lemma_json_model_seq(out@);
                    assert(json_model_seq(out@) =~= json_model_seq(items@));
                }
                JsonValue::Array(out)
            },
            JsonValue::Object(entries) => {
                let n: usize = entries.len();
                let mut out: Vec<(String, JsonValue)> = Vec::new();
                let mut i: usize = 0;
                while i < n
                    invariant
                        0 <= i <= n,
                        n == entries@.len(),
                        out@.len() == i,
                        forall|j: int| 0 <= j < i ==> out@[j].0@ == entries@[j].0@
                            && out@[j].1@ == entries@[j].1@,
                    decreases n - i,
                {
                    proof {
                        assert(decreases_to!(*self => self->Object_0));
                        assert(self->Object_0 == *entries);
                        assert(decreases_to!(*entries => entries[i as int]));
                        assert(decreases_to!(entries[i as int] => entries[i as int].1));
                    }
                    let key = entries[i].0.clone();
                    let value = entries[i].1.clone();
                    out.push((key, value));
                    i = i + 1;
                }
                proof {
                    lemma_json_model_entries(entries@);
                    lemma_json_model_entries(out@);
                    assert(json_model_entries(out@) =~= json_model_entries(entries@));
                }
                JsonValue::Object(out)
            },
        }
    }
}

/// `json_model_seq` maps `json_model` over the sequence pointwise.
pub proof fn lemma_json_model_seq(s: Seq<JsonValue>)
    ensures
        json_model_seq(s).len() == s.len(),
        forall|i: int| 0 <= i < s.len() ==> json_model_seq(s)[i] == json_model(s[i]),
    decreases s.len(),
{
    if s.len() > 0 {
        lemma_json_model_seq(s.drop_first());
    }
}

/// `json_model_entries` models each member's key and value pointwise.
pub proof fn lemma_json_model_entries(s: Seq<(String, JsonValue)>)
    ensures
        json_model_entries(s).len() == s.len(),
        forall|i: int| 0 <= i < s.len() ==> json_model_entries(s)[i]
            == (s[i].0@, json_model(s[i].1)),
    decreases s.len(),
{
    if s.len() > 0 {
        lemma_json_model_entries(s.drop_first());
    }
}

/// The value of the first member named `key` among the modelled members,
/// if any.
pub open spec fn member_lookup(entries: Seq<(Seq<char>, JsonModel)>, key: Seq<char>)
    -> Option<JsonModel>
    decreases entries.len(),
{
    if entries.len() == 0 {
        Option::None
    } else if entries[0].0 == key {
        Option::Some(entries[0].1)
    } else {
        member_lookup(entries.drop_first(), key)
    }
}

/// The position of the first member named `key` in a JSON object's
/// member list, if any.
pub fn object_member_position(entries: &Vec<(String, JsonValue)>, key: &String)
    -> (r: Option<usize>)
    ensures
        match r {
            Option::Some(i) => i < entries@.len() && entries@[i as int].0@ == key@
                && member_lookup(json_model_entries(entries@), key@)
                    == Option::Some(entries@[i as int].1@)
                && (forall|j: int| 0 <= j < i ==> entries@[j].0@ != key@),
            Option::None => member_lookup(json_model_entries(entries@), key@)
                is None
                && (forall|j: int| 0 <= j < entries@.len()
                    ==> entries@[j].0@ != key@),
        },
{
    let n: usize = entries.len();
    let mut i: usize = 0;
    proof {
        assert(entries@.skip(0) =~= entries@);
    }
    while i < n
        invariant
            0 <= i <= n,
            n == entries@.len(),
            member_lookup(json_model_entries(entries@), key@)
                == member_lookup(json_model_entries(entries@.skip(i as int)), key@),
            forall|j: int| 0 <= j < i ==> entries@[j].0@ != key@,
        decreases n - i,
    {
        proof {
            lemma_json_model_entries(entries@.skip(i as int));
        }
        if entries[i].0 == *key {
            proof {
                let rest = entries@.skip(i as int);
                assert(rest[0] == entries@[i as int]);
                assert(json_model_entries(rest)[0] == (entries@[i as int].0@,
                    json_model(entries@[i as int].1)));
            }
            return Some(i);
        }
        proof {
            let rest = entries@.skip(i as int);
            assert(json_model_entries(rest)[0] == (entries@[i as int].0@,
                json_model(entries@[i as int].1)));
            assert(json_model_entries(rest).drop_first()
                == json_model_entries(rest.drop_first())) by {
                lemma_json_model_entries(rest);
                lemma_json_model_entries(rest.drop_first());
                assert(json_model_entries(rest).drop_first()
                    =~= json_model_entries(rest.drop_first()));
            }
            assert(rest.drop_first() =~= entries@.skip(i as int + 1));
        }
        i = i + 1;
    }
    proof {
        assert(entries@.skip(n as int) =~= Seq::empty());
    }
    None
}

/// Looks a member up in a JSON object's member list by its name; returns
/// the first member of that name.
pub fn object_get<'a>(entries: &'a Vec<(String, JsonValue)>, key: &String)
    -> (r: Option<&'a JsonValue>)
    ensures
        match r {
            Option::Some(v) => member_lookup(json_model_entries(entries@), key@)
                == Option::Some(v@),
            Option::None => member_lookup(json_model_entries(entries@), key@)
                is None,
        },
{
    match object_member_position(entries, key) {
        Option::Some(i) => Option::Some(&entries[i].1),
        Option::None => Option::None,
    }
}

/// A looked-up member's value sits below the member list, so recursion
/// into it terminates.
pub proof fn lemma_member_lookup_decreases(entries: Seq<(Seq<char>, JsonModel)>, key: Seq<char>)
    requires
        member_lookup(entries, key) is Some,
    ensures
        decreases_to!(entries => member_lookup(entries, key)->Some_0),
    decreases entries.len(),
{
    if entries[0].0 == key {
        assert(decreases_to!(entries => entries[0]));
        assert(decreases_to!(entries[0] => entries[0].1));
    } else {
        lemma_member_lookup_decreases(entries.drop_first(), key);
        assert(decreases_to!(entries => entries.drop_first()));
    }
}

} // verus!
