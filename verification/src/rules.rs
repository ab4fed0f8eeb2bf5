//! Scope rules and composite mappings.
//!
//! A scope resolves either implicitly — through the scanned index and a
//! collect policy — or explicitly, by walking a composite mapping that
//! rebuilds a JSON value from pointers into the trait document.

use vstd::prelude::*;

use crate::json::{
    json_model_entries, json_model_seq, lemma_member_lookup_decreases, member_lookup,
    object_get, object_member_position, JsonModel, JsonValue,
};
use crate::pointer::{parse_pointer_model, resolve_model, Pointer};
use crate::scope::{Collect, SessionData, SessionModel};

verus! {

/// The model of a composite mapping.
pub enum MappingModel {
    Object(Seq<(Seq<char>, MappingModel)>),
    Tuple(Seq<MappingModel>),
    Path(Seq<Seq<char>>),
}

/// How to rebuild a JSON value from a trait document: an object of
/// mapped members, an array of mapped elements, or one pointer followed
/// directly.
#[derive(Debug, PartialEq, Eq)]
pub enum ScopeExplicitMapping {
    Object { properties: Vec<(String, ScopeExplicitMapping)> },
    Tuple { items: Vec<ScopeExplicitMapping> },
    Path { ref_: Pointer },
}

/// The model of a composite mapping.
pub open spec fn mapping_model(m: ScopeExplicitMapping) -> MappingModel
    decreases m, 2int,
{
    match m {
        ScopeExplicitMapping::Object { properties } => MappingModel::Object(
            mapping_model_entries(properties@),
        ),
        ScopeExplicitMapping::Tuple { items } => MappingModel::Tuple(
            mapping_model_seq(items@),
        ),
        ScopeExplicitMapping::Path { ref_ } => MappingModel::Path(ref_@),
    }
}

/// The models of an object mapping's members, member by member.
pub open spec fn mapping_model_entries(s: Seq<(String, ScopeExplicitMapping)>)
    -> Seq<(Seq<char>, MappingModel)>
    decreases s, 1int,
{
    if s.len() == 0 {
        Seq::empty()
    } else {
        seq![(s[0].0@, mapping_model(s[0].1))] + mapping_model_entries(s.drop_first())
    }
}

/// The models of a tuple mapping's elements, element by element.
pub open spec fn mapping_model_seq(s: Seq<ScopeExplicitMapping>) -> Seq<MappingModel>
    decreases s, 1int,
{
    if s.len() == 0 {
        Seq::empty()
    } else {
        seq![mapping_model(s[0])] + mapping_model_seq(s.drop_first())
    }
}

impl View for ScopeExplicitMapping {
    type V = MappingModel;

    open spec fn view(&self) -> MappingModel {
        mapping_model(*self)
    }
}

/// `mapping_model_entries` models each member pointwise.
pub proof fn lemma_mapping_model_entries(s: Seq<(String, ScopeExplicitMapping)>)
    ensures
        mapping_model_entries(s).len() == s.len(),
        forall|i: int| 0 <= i < s.len() ==> mapping_model_entries(s)[i]
            == (s[i].0@, mapping_model(s[i].1)),
    decreases s.len(),
{
    if s.len() > 0 {
        lemma_mapping_model_entries(s.drop_first());
    }
}

/// `mapping_model_seq` models each element pointwise.
pub proof fn lemma_mapping_model_seq(s: Seq<ScopeExplicitMapping>)
    ensures
        mapping_model_seq(s).len() == s.len(),
        forall|i: int| 0 <= i < s.len() ==> mapping_model_seq(s)[i]
            == mapping_model(s[i]),
    decreases s.len(),
{
    if s.len() > 0 {
        lemma_mapping_model_seq(s.drop_first());
    }
}

impl Clone for ScopeExplicitMapping {
    /// A deep copy with the same model.
    #[verifier::loop_isolation(false)]
    fn clone(&self) -> (r: Self)
        ensures
            r@ == self@,
        decreases *self,
    {
        match self {
            ScopeExplicitMapping::Object { properties } => {
                let n: usize = properties.len();
                let mut out: Vec<(String, ScopeExplicitMapping)> = Vec::new();
                let mut i: usize = 0;
                while i < n
                    invariant
                        0 <= i <= n,
                        n == properties@.len(),
                        out@.len() == i,
                        forall|j: int| 0 <= j < i ==> out@[j].0@ == properties@[j].0@
                            && out@[j].1@ == properties@[j].1@,
                    decreases n - i,
                {
                    proof {
                        assert(decreases_to!(*self => self->Object_properties));
                        assert(self->Object_properties == *properties);
                        assert(decreases_to!(*properties => properties[i as int]));
                        assert(decreases_to!(properties[i as int]
                            => properties[i as int].1));
                    }
                    let key = properties[i].0.clone();
                    let value = properties[i].1.clone();
                    out.push((key, value));
                    i = i + 1;
                }
                proof {
                    lemma_mapping_model_entries(properties@);
                    lemma_mapping_model_entries(out@);
                    assert(mapping_model_entries(out@)
                        =~= mapping_model_entries(properties@));
                }
                ScopeExplicitMapping::Object { properties: out }
            },
            ScopeExplicitMapping::Tuple { items } => {
                let n: usize = items.len();
                let mut out: Vec<ScopeExplicitMapping> = Vec::new();
                let mut i: usize = 0;
                while i < n
                    invariant
                        0 <= i <= n,
                        n == items@.len(),
                        out@.len() == i,
                        forall|j: int| 0 <= j < i ==> out@[j]@ == items@[j]@,
                    decreases n - i,
                {
                    proof {
                        assert(decreases_to!(*self => self->Tuple_items));
                        assert(self->Tuple_items == *items);
                        assert(decreases_to!(*items => items[i as int]));
                    }
                    out.push(items[i].clone());
                    i = i + 1;
                }
                proof {
                    lemma_mapping_model_seq(items@);
                    lemma_mapping_model_seq(out@);
                    assert(mapping_model_seq(out@) =~= mapping_model_seq(items@));
                }
                ScopeExplicitMapping::Tuple { items: out }
            },
            ScopeExplicitMapping::Path { ref_ } => ScopeExplicitMapping::Path {
                ref_: ref_.clone(),
            },
        }
    }
}

/// What a composite mapping resolves to against a trait document: an
/// object is rebuilt member by member, a tuple element by element, and
/// a path follows its pointer, with `null` standing in for an absent
/// path.
pub open spec fn resolve_mapping(m: MappingModel, doc: JsonModel) -> JsonModel
    decreases m, 0int,
{
    match m {
        MappingModel::Object(props) => JsonModel::Object(
            resolve_mapping_entries(props, doc),
        ),
        MappingModel::Tuple(items) => JsonModel::Array(
            resolve_mapping_seq(items, doc),
        ),
        MappingModel::Path(p) => match resolve_model(p, doc) {
            Option::Some(v) => v,
            Option::None => JsonModel::Null,
        },
    }
}

/// Each member of an object mapping resolved in order.
pub open spec fn resolve_mapping_entries(
    props: Seq<(Seq<char>, MappingModel)>,
    doc: JsonModel,
) -> Seq<(Seq<char>, JsonModel)>
    decreases props, 1int,
{
    if props.len() == 0 {
        Seq::empty()
    } else {
        seq![(props[0].0, resolve_mapping(props[0].1, doc))]
            + resolve_mapping_entries(props.drop_first(), doc)
    }
}

/// Each element of a tuple mapping resolved in order.
pub open spec fn resolve_mapping_seq(items: Seq<MappingModel>, doc: JsonModel)
    -> Seq<JsonModel>
    decreases items, 1int,
{
    if items.len() == 0 {
        Seq::empty()
    } else {
        seq![resolve_mapping(items[0], doc)]
            + resolve_mapping_seq(items.drop_first(), doc)
    }
}

impl ScopeExplicitMapping {
    /// The JSON value this mapping rebuilds from the trait document.
    #[verifier::loop_isolation(false)]
    pub fn resolve(&self, value: &JsonValue) -> (r: JsonValue)
        ensures
            r@ == resolve_mapping(self@, value@),
        decreases *self,
    {
        match self {
            ScopeExplicitMapping::Object { properties } => {
                let ghost pm = mapping_model_entries(properties@);
                proof {
                    lemma_mapping_model_entries(properties@);
                }
                let n: usize = properties.len();
                let mut out: Vec<(String, JsonValue)> = Vec::new();
                let mut k: usize = 0;
                proof {
                    assert(pm.skip(0) =~= pm);
                    assert(json_model_entries(out@)
                        =~= Seq::<(Seq<char>, JsonModel)>::empty());
                }
                while k < n
                    invariant
                        0 <= k <= n,
                        n == properties@.len(),
                        pm.len() == n,
                        resolve_mapping_entries(pm, value@) == json_model_entries(out@)
                            + resolve_mapping_entries(pm.skip(k as int), value@),
                    decreases n - k,
                {
                    let ghost rest = pm.skip(k as int);
                    proof {
                        assert(rest[0] == pm[k as int]);
                        assert(rest.drop_first() =~= pm.skip(k as int + 1));
                        assert(pm[k as int] == (properties@[k as int].0@,
                            mapping_model(properties@[k as int].1)));
                        assert(decreases_to!(*self => self->Object_properties));
                        assert(self->Object_properties == *properties);
                        assert(decreases_to!(*properties => properties[k as int]));
                        assert(decreases_to!(properties[k as int]
                            => properties[k as int].1));
                    }
                    let key = properties[k].0.clone();
                    let child = properties[k].1.resolve(value);
                    let ghost out0 = out@;
                    out.push((key, child));
                    proof {
                        crate::json::lemma_json_model_entries(out@);
                        crate::json::lemma_json_model_entries(out0);
                        assert(json_model_entries(out@) =~= json_model_entries(out0)
                            + seq![(pm[k as int].0,
                                resolve_mapping(pm[k as int].1, value@))]);
                        assert(json_model_entries(out0) + (seq![(pm[k as int].0,
                            resolve_mapping(pm[k as int].1, value@))]
                            + resolve_mapping_entries(pm.skip(k as int + 1), value@))
                            =~= json_model_entries(out@)
                                + resolve_mapping_entries(pm.skip(k as int + 1),
                                    value@));
                    }
                    k = k + 1;
                }
                proof {
                    assert(pm.skip(n as int)
                        =~= Seq::<(Seq<char>, MappingModel)>::empty());
                    assert(json_model_entries(out@)
                        + Seq::<(Seq<char>, JsonModel)>::empty()
                        =~= json_model_entries(out@));
                }
                JsonValue::Object(out)
            },
            ScopeExplicitMapping::Tuple { items } => {
                let ghost im = mapping_model_seq(items@);
                proof {
                    lemma_mapping_model_seq(items@);
                }
                let n: usize = items.len();
                let mut out: Vec<JsonValue> = Vec::new();
                let mut k: usize = 0;
                proof {
                    assert(im.skip(0) =~= im);
                    assert(json_model_seq(out@) =~= Seq::<JsonModel>::empty());
                }
                while k < n
                    invariant
                        0 <= k <= n,
                        n == items@.len(),
                        im.len() == n,
                        resolve_mapping_seq(im, value@) == json_model_seq(out@)
                            + resolve_mapping_seq(im.skip(k as int), value@),
                    decreases n - k,
                {
                    let ghost rest = im.skip(k as int);
                    proof {
                        assert(rest[0] == im[k as int]);
                        assert(rest.drop_first() =~= im.skip(k as int + 1));
                        assert(im[k as int] == mapping_model(items@[k as int]));
                        assert(decreases_to!(*self => self->Tuple_items));
                        assert(self->Tuple_items == *items);
                        assert(decreases_to!(*items => items[k as int]));
                    }
                    let child = items[k].resolve(value);
                    let ghost out0 = out@;
                    out.push(child);
                    proof {
                        crate::json::lemma_json_model_seq(out@);
                        crate::json::lemma_json_model_seq(out0);
                        assert(json_model_seq(out@) =~= json_model_seq(out0)
                            + seq![resolve_mapping(im[k as int], value@)]);
                        assert(json_model_seq(out0)
                            + (seq![resolve_mapping(im[k as int], value@)]
                            + resolve_mapping_seq(im.skip(k as int + 1), value@))
                            =~= json_model_seq(out@)
                                + resolve_mapping_seq(im.skip(k as int + 1), value@));
                    }
                    k = k + 1;
                }
                proof {
                    assert(im.skip(n as int) =~= Seq::<MappingModel>::empty());
                    assert(json_model_seq(out@) + Seq::<JsonModel>::empty()
                        =~= json_model_seq(out@));
                }
                JsonValue::Array(out)
            },
            ScopeExplicitMapping::Path { ref_ } => match ref_.resolve(value) {
                Option::Some(v) => v.clone(),
                Option::None => JsonValue::Null,
            },
        }
    }
}

/// A rule resolved through the scanned index: which combinator to apply
/// and where the value lands.
#[derive(Debug, PartialEq, Eq)]
pub struct ImplicitScope {
    pub collect: Collect,
    pub session_data: SessionData,
}

impl Clone for ImplicitScope {
    /// A copy with the same policy and claim names.
    fn clone(&self) -> (r: Self)
        ensures
            r.collect == self.collect,
            r.session_data@ == self.session_data@,
    {
        ImplicitScope {
            collect: self.collect,
            session_data: self.session_data.clone(),
        }
    }
}

/// A rule resolved by walking a composite mapping: the mapping and
/// where the value lands.
#[derive(Debug, PartialEq, Eq)]
pub struct ExplicitScope {
    pub mapping: ScopeExplicitMapping,
    pub session_data: SessionData,
}

impl Clone for ExplicitScope {
    /// A copy with the same mapping and claim names.
    fn clone(&self) -> (r: Self)
        ensures
            r.mapping@ == self.mapping@,
            r.session_data@ == self.session_data@,
    {
        ExplicitScope {
            mapping: self.mapping.clone(),
            session_data: self.session_data.clone(),
        }
    }
}

/// The model of a scope rule.
pub enum RuleModel {
    Implicit { collect: Collect, session: SessionModel },
    Explicit { mapping: MappingModel, session: SessionModel },
}

impl RuleModel {
    /// The session data of either kind of rule.
    pub open spec fn session(self) -> SessionModel {
        match self {
            RuleModel::Implicit { session, .. } => session,
            RuleModel::Explicit { session, .. } => session,
        }
    }
}

/// How one scope's claim value is computed.
#[derive(Debug, PartialEq, Eq)]
pub enum ScopeConfiguration {
    Implicit(ImplicitScope),
    Explicit(ExplicitScope),
}

impl View for ScopeConfiguration {
    type V = RuleModel;

    open spec fn view(&self) -> RuleModel {
        match self {
            ScopeConfiguration::Implicit(i) => RuleModel::Implicit {
                collect: i.collect,
                session: i.session_data@,
            },
            ScopeConfiguration::Explicit(e) => RuleModel::Explicit {
                mapping: e.mapping@,
                session: e.session_data@,
            },
        }
    }
}

impl Clone for ScopeConfiguration {
    /// A copy with the same model.
    fn clone(&self) -> (r: Self)
        ensures
            r@ == self@,
    {
        match self {
            ScopeConfiguration::Implicit(i) => ScopeConfiguration::Implicit(i.clone()),
            ScopeConfiguration::Explicit(e) => ScopeConfiguration::Explicit(e.clone()),
        }
    }
}

/// A declared claim name: absent or `null` means "do not emit", a
/// string names the claim, anything else is malformed.
pub open spec fn opt_claim(o: Option<JsonModel>) -> Option<Option<Seq<char>>> {
    match o {
        Option::None => Option::Some(Option::None),
        Option::Some(JsonModel::Null) => Option::Some(Option::None),
        Option::Some(JsonModel::Text(t)) => Option::Some(Option::Some(t)),
        Option::Some(_) => Option::None,
    }
}

/// The session data a value declares: an object whose `idToken` and
/// `accessToken` members are each absent, `null` or a string.
pub open spec fn parse_session(m: JsonModel) -> Option<SessionModel> {
    match m {
        JsonModel::Object(entries) => match opt_claim(member_lookup(entries,
            "idToken"@)) {
            Option::Some(id) => match opt_claim(member_lookup(entries,
                "accessToken"@)) {
                Option::Some(at) => Option::Some(SessionModel {
                    id_token: id,
                    access_token: at,
                }),
                Option::None => Option::None,
            },
            Option::None => Option::None,
        },
        _ => Option::None,
    }
}

/// The collect policy a value names.
pub open spec fn parse_collect(m: JsonModel) -> Option<Collect> {
    match m {
        JsonModel::Text(t) => if t == "first"@ {
            Option::Some(Collect::First)
        } else if t == "last"@ {
            Option::Some(Collect::Last)
        } else if t == "any"@ {
            Option::Some(Collect::Any)
        } else if t == "all"@ {
            Option::Some(Collect::All)
        } else {
            Option::None
        },
        _ => Option::None,
    }
}

/// The composite mapping a value declares, by its `type` member:
/// an `object` with mapped `properties`, a `tuple` with mapped
/// `prefixItems`, or a `path` whose `$ref` is a pointer text.
pub open spec fn parse_mapping(m: JsonModel) -> Option<MappingModel>
    decreases m, 0int
        via parse_mapping_decreases
{
    match m {
        JsonModel::Object(entries) => match member_lookup(entries, "type"@) {
            Option::Some(JsonModel::Text(t)) => if t == "object"@ {
                match member_lookup(entries, "properties"@) {
                    Option::Some(JsonModel::Object(props)) => match
                        parse_mapping_entries(props) {
                        Option::Some(ps) => Option::Some(MappingModel::Object(ps)),
                        Option::None => Option::None,
                    },
                    _ => Option::None,
                }
            } else if t == "tuple"@ {
                match member_lookup(entries, "prefixItems"@) {
                    Option::Some(JsonModel::Array(items)) => match
                        parse_mapping_seq(items) {
                        Option::Some(its) => Option::Some(MappingModel::Tuple(its)),
                        Option::None => Option::None,
                    },
                    _ => Option::None,
                }
            } else if t == "path"@ {
                match member_lookup(entries, "$ref"@) {
                    Option::Some(JsonModel::Text(pt)) => match parse_pointer_model(pt) {
                        Option::Some(p) => Option::Some(MappingModel::Path(p)),
                        Option::None => Option::None,
                    },
                    _ => Option::None,
                }
            } else {
                Option::None
            },
            _ => Option::None,
        },
        _ => Option::None,
    }
}

/// The mappings of an object mapping's members, each parsed in turn.
pub open spec fn parse_mapping_entries(props: Seq<(Seq<char>, JsonModel)>)
    -> Option<Seq<(Seq<char>, MappingModel)>>
    decreases props, 1int,
{
    if props.len() == 0 {
        Option::Some(Seq::empty())
    } else {
        match parse_mapping(props[0].1) {
            Option::Some(pm) => match parse_mapping_entries(props.drop_first()) {
                Option::Some(rest) => Option::Some(seq![(props[0].0, pm)] + rest),
                Option::None => Option::None,
            },
            Option::None => Option::None,
        }
    }
}

/// The mappings of a tuple mapping's elements, each parsed in turn.
pub open spec fn parse_mapping_seq(items: Seq<JsonModel>) -> Option<Seq<MappingModel>>
    decreases items, 1int,
{
    if items.len() == 0 {
        Option::Some(Seq::empty())
    } else {
        match parse_mapping(items[0]) {
            Option::Some(pm) => match parse_mapping_seq(items.drop_first()) {
                Option::Some(rest) => Option::Some(seq![pm] + rest),
                Option::None => Option::None,
            },
            Option::None => Option::None,
        }
    }
}

#[via_fn]
proof fn parse_mapping_decreases(m: JsonModel) {
    match m {
        JsonModel::Object(entries) => {
            assert(decreases_to!(m => m->Object_0));
            if member_lookup(entries, "properties"@) is Some {
                lemma_member_lookup_decreases(entries, "properties"@);
                match member_lookup(entries, "properties"@) {
                    Option::Some(pv) => {
                        if pv matches JsonModel::Object(props) {
                            assert(decreases_to!(pv => pv->Object_0));
                        }
                    },
                    Option::None => {},
                }
            }
            if member_lookup(entries, "prefixItems"@) is Some {
                lemma_member_lookup_decreases(entries, "prefixItems"@);
                match member_lookup(entries, "prefixItems"@) {
                    Option::Some(iv) => {
                        if iv matches JsonModel::Array(items) {
                            assert(decreases_to!(iv => iv->Array_0));
                        }
                    },
                    Option::None => {},
                }
            }
        },
        _ => {},
    }
}

/// The scope rule a value declares, by its `type` member: `implicit`
/// with a collect policy, or `explicit` with a composite mapping, each
/// with its session data.
pub open spec fn parse_rule(m: JsonModel) -> Option<RuleModel> {
    match m {
        JsonModel::Object(entries) => match member_lookup(entries, "type"@) {
            Option::Some(JsonModel::Text(t)) => if t == "implicit"@ {
                match member_lookup(entries, "collect"@) {
                    Option::Some(cm) => match parse_collect(cm) {
                        Option::Some(c) => match member_lookup(entries,
                            "sessionData"@) {
                            Option::Some(sm) => match parse_session(sm) {
                                Option::Some(sd) => Option::Some(RuleModel::Implicit {
                                    collect: c,
                                    session: sd,
                                }),
                                Option::None => Option::None,
                            },
                            Option::None => Option::None,
                        },
                        Option::None => Option::None,
                    },
                    Option::None => Option::None,
                }
            } else if t == "explicit"@ {
                match member_lookup(entries, "mapping"@) {
                    Option::Some(mm) => match parse_mapping(mm) {
                        Option::Some(mp) => match member_lookup(entries,
                            "sessionData"@) {
                            Option::Some(sm) => match parse_session(sm) {
                                Option::Some(sd) => Option::Some(RuleModel::Explicit {
                                    mapping: mp,
                                    session: sd,
                                }),
                                Option::None => Option::None,
                            },
                            Option::None => Option::None,
                        },
                        Option::None => Option::None,
                    },
                    Option::None => Option::None,
                }
            } else {
                Option::None
            },
            _ => Option::None,
        },
        _ => Option::None,
    }
}

impl SessionData {
    /// Reads session data out of a JSON value.
    pub fn parse(v: &JsonValue) -> (r: Option<SessionData>)
        ensures
            match r {
                Option::Some(sd) => parse_session(v@) == Option::Some(sd@),
                Option::None => parse_session(v@) is None,
            },
    {
        match v {
            JsonValue::Object(entries) => {
                proof {
                    assert(v@ == JsonModel::Object(json_model_entries(entries@)));
                }
                let ik: String = "idToken".to_owned();
                let id_token = match object_get(entries, &ik) {
                    Option::None => Option::None,
                    Option::Some(JsonValue::Null) => Option::None,
                    Option::Some(JsonValue::Text(t)) => Option::Some(t.clone()),
                    Option::Some(_) => {
                        return Option::None;
                    },
                };
                let ak: String = "accessToken".to_owned();
                let access_token = match object_get(entries, &ak) {
                    Option::None => Option::None,
                    Option::Some(JsonValue::Null) => Option::None,
                    Option::Some(JsonValue::Text(t)) => Option::Some(t.clone()),
                    Option::Some(_) => {
                        return Option::None;
                    },
                };
                Option::Some(SessionData { id_token, access_token })
            },
            _ => Option::None,
        }
    }
}

impl Collect {
    /// Reads a collect policy out of a JSON value.
    pub fn parse(v: &JsonValue) -> (r: Option<Collect>)
        ensures
            r == parse_collect(v@),
    {
        match v {
            JsonValue::Text(t) => {
                if *t == "first".to_owned() {
                    Option::Some(Collect::First)
                } else if *t == "last".to_owned() {
                    Option::Some(Collect::Last)
                } else if *t == "any".to_owned() {
                    Option::Some(Collect::Any)
                } else if *t == "all".to_owned() {
                    Option::Some(Collect::All)
                } else {
                    Option::None
                }
            },
            _ => Option::None,
        }
    }
}

impl ScopeExplicitMapping {
    /// Reads a composite mapping out of a JSON value.
    pub fn parse(v: &JsonValue) -> (r: Option<ScopeExplicitMapping>)
        ensures
            match r {
                Option::Some(m) => parse_mapping(v@) == Option::Some(m@),
                Option::None => parse_mapping(v@) is None,
            },
        decreases *v, 1int,
    {
        match v {
            JsonValue::Object(entries) => {
                proof {
                    assert(v@ == JsonModel::Object(json_model_entries(entries@)));
                }
                let tk: String = "type".to_owned();
                match object_get(entries, &tk) {
                    Option::Some(JsonValue::Text(t)) => {
                        if *t == "object".to_owned() {
                            let pk: String = "properties".to_owned();
                            match object_member_position(entries, &pk) {
                                Option::Some(i) => match &entries[i].1 {
                                    JsonValue::Object(props) => {
                                        proof {
                                            assert(entries@[i as int].1@
                                                == JsonModel::Object(
                                                json_model_entries(props@)));
                                        }
                                        match Self::parse_object_members(v, entries,
                                            i, props) {
                                            Option::Some(ps) => Option::Some(
                                                ScopeExplicitMapping::Object {
                                                    properties: ps,
                                                },
                                            ),
                                            Option::None => Option::None,
                                        }
                                    },
                                    _ => Option::None,
                                },
                                Option::None => Option::None,
                            }
                        } else if *t == "tuple".to_owned() {
                            let ik: String = "prefixItems".to_owned();
                            match object_member_position(entries, &ik) {
                                Option::Some(i) => match &entries[i].1 {
                                    JsonValue::Array(items) => {
                                        proof {
                                            assert(entries@[i as int].1@
                                                == JsonModel::Array(
                                                json_model_seq(items@)));
                                        }
                                        match Self::parse_tuple_items(v, entries, i,
                                            items) {
                                            Option::Some(its) => Option::Some(
                                                ScopeExplicitMapping::Tuple {
                                                    items: its,
                                                },
                                            ),
                                            Option::None => Option::None,
                                        }
                                    },
                                    _ => Option::None,
                                },
                                Option::None => Option::None,
                            }
                        } else if *t == "path".to_owned() {
                            let rk: String = "$ref".to_owned();
                            match object_get(entries, &rk) {
                                Option::Some(JsonValue::Text(pt)) => {
                                    match Pointer::parse(pt.as_str()) {
                                        Option::Some(p) => Option::Some(
                                            ScopeExplicitMapping::Path { ref_: p },
                                        ),
                                        Option::None => Option::None,
                                    }
                                },
                                _ => Option::None,
                            }
                        } else {
                            Option::None
                        }
                    },
                    _ => Option::None,
                }
            },
            _ => Option::None,
        }
    }

    /// Reads every member of an object mapping's `properties` member,
    /// which sits at position `i` of `entries` inside the object `v`.
    #[verifier::loop_isolation(false)]
    fn parse_object_members(
        v: &JsonValue,
        entries: &Vec<(String, JsonValue)>,
        i: usize,
        props: &Vec<(String, JsonValue)>,
    ) -> (r: Option<Vec<(String, ScopeExplicitMapping)>>)
        requires
            *v == JsonValue::Object(*entries),
            i < entries@.len(),
            entries@[i as int].1 == JsonValue::Object(*props),
        ensures
            match r {
                Option::Some(ps) => parse_mapping_entries(json_model_entries(props@))
                    == Option::Some(mapping_model_entries(ps@)),
                Option::None => parse_mapping_entries(json_model_entries(props@))
                    is None,
            },
        decreases *v, 0int,
    {
        let ghost pm = json_model_entries(props@);
        let n: usize = props.len();
        let mut out: Vec<(String, ScopeExplicitMapping)> = Vec::new();
        let mut t: usize = 0;
        proof {
            crate::json::lemma_json_model_entries(props@);
            assert(pm.skip(0) =~= pm);
            assert(mapping_model_entries(out@)
                =~= Seq::<(Seq<char>, MappingModel)>::empty());
        }
        while t < n
            invariant
                0 <= t <= n,
                n == props@.len(),
                pm.len() == n,
                out@.len() == t,
                parse_mapping_entries(pm.skip(t as int)) matches Option::Some(rest)
                    ==> parse_mapping_entries(pm)
                        == Option::Some(mapping_model_entries(out@) + rest),
                parse_mapping_entries(pm.skip(t as int)) is None
                    ==> parse_mapping_entries(pm) is None,
            decreases n - t,
        {
            let ghost rest = pm.skip(t as int);
            proof {
                crate::json::lemma_json_model_entries(props@);
                assert(rest[0] == pm[t as int]);
                assert(rest.drop_first() =~= pm.skip(t as int + 1));
                assert(pm[t as int] == (props@[t as int].0@,
                    crate::json::json_model(props@[t as int].1)));
                assert(decreases_to!(*v => v->Object_0));
                assert(decreases_to!(*entries => entries[i as int]));
                assert(decreases_to!(entries[i as int] => entries[i as int].1));
                assert(decreases_to!(entries[i as int].1
                    => entries[i as int].1->Object_0));
                assert(entries[i as int].1->Object_0 == *props);
                assert(decreases_to!(*props => props[t as int]));
                assert(decreases_to!(props[t as int] => props[t as int].1));
            }
            match Self::parse(&props[t].1) {
                Option::Some(child) => {
                    let key = props[t].0.clone();
                    let ghost out0 = out@;
                    out.push((key, child));
                    proof {
                        lemma_mapping_model_entries(out@);
                        lemma_mapping_model_entries(out0);
                        assert(mapping_model_entries(out@)
                            =~= mapping_model_entries(out0)
                                + seq![(pm[t as int].0, child@)]);
                        if let Option::Some(r2) = parse_mapping_entries(pm.skip(
                            t as int + 1)) {
                            assert(parse_mapping_entries(rest)
                                == Option::Some(seq![(pm[t as int].0, child@)] + r2));
                            assert(mapping_model_entries(out0)
                                + (seq![(pm[t as int].0, child@)] + r2)
                                =~= mapping_model_entries(out@) + r2);
                        }
                    }
                },
                Option::None => {
                    return Option::None;
                },
            }
            t = t + 1;
        }
        proof {
            assert(pm.skip(n as int) =~= Seq::<(Seq<char>, JsonModel)>::empty());
            assert(mapping_model_entries(out@)
                + Seq::<(Seq<char>, MappingModel)>::empty()
                =~= mapping_model_entries(out@));
        }
        Option::Some(out)
    }

    /// Reads every element of a tuple mapping's `prefixItems` member,
    /// which sits at position `i` of `entries` inside the object `v`.
    #[verifier::loop_isolation(false)]
    fn parse_tuple_items(
        v: &JsonValue,
        entries: &Vec<(String, JsonValue)>,
        i: usize,
        items: &Vec<JsonValue>,
    ) -> (r: Option<Vec<ScopeExplicitMapping>>)
        requires
            *v == JsonValue::Object(*entries),
            i < entries@.len(),
            entries@[i as int].1 == JsonValue::Array(*items),
        ensures
            match r {
                Option::Some(its) => parse_mapping_seq(json_model_seq(items@))
                    == Option::Some(mapping_model_seq(its@)),
                Option::None => parse_mapping_seq(json_model_seq(items@)) is None,
            },
        decreases *v, 0int,
    {
        let ghost im = json_model_seq(items@);
        let n: usize = items.len();
        let mut out: Vec<ScopeExplicitMapping> = Vec::new();
        let mut t: usize = 0;
        proof {
            crate::json::lemma_json_model_seq(items@);
            assert(im.skip(0) =~= im);
            assert(mapping_model_seq(out@) =~= Seq::<MappingModel>::empty());
        }
        while t < n
            invariant
                0 <= t <= n,
                n == items@.len(),
                im.len() == n,
                out@.len() == t,
                parse_mapping_seq(im.skip(t as int)) matches Option::Some(rest)
                    ==> parse_mapping_seq(im)
                        == Option::Some(mapping_model_seq(out@) + rest),
                parse_mapping_seq(im.skip(t as int)) is None
                    ==> parse_mapping_seq(im) is None,
            decreases n - t,
        {
            let ghost rest = im.skip(t as int);
            proof {
                crate::json::lemma_json_model_seq(items@);
                assert(rest[0] == im[t as int]);
                assert(rest.drop_first() =~= im.skip(t as int + 1));
                assert(im[t as int] == crate::json::json_model(items@[t as int]));
                assert(decreases_to!(*v => v->Object_0));
                assert(decreases_to!(*entries => entries[i as int]));
                assert(decreases_to!(entries[i as int] => entries[i as int].1));
                assert(decreases_to!(entries[i as int].1
                    => entries[i as int].1->Array_0));
                assert(entries[i as int].1->Array_0 == *items);
                assert(decreases_to!(*items => items[t as int]));
            }
            match Self::parse(&items[t]) {
                Option::Some(child) => {
                    let ghost out0 = out@;
                    out.push(child);
                    proof {
                        lemma_mapping_model_seq(out@);
                        lemma_mapping_model_seq(out0);
                        assert(mapping_model_seq(out@) =~= mapping_model_seq(out0)
                            + seq![child@]);
                        if let Option::Some(r2) = parse_mapping_seq(im.skip(
                            t as int + 1)) {
                            assert(parse_mapping_seq(rest)
                                == Option::Some(seq![child@] + r2));
                            assert(mapping_model_seq(out0) + (seq![child@] + r2)
                                =~= mapping_model_seq(out@) + r2);
                        }
                    }
                },
                Option::None => {
                    return Option::None;
                },
            }
            t = t + 1;
        }
        proof {
            assert(im.skip(n as int) =~= Seq::<JsonModel>::empty());
            assert(mapping_model_seq(out@) + Seq::<MappingModel>::empty()
                =~= mapping_model_seq(out@));
        }
        Option::Some(out)
    }
}

impl ScopeConfiguration {
    /// Reads a scope rule out of a JSON value.
    pub fn parse(v: &JsonValue) -> (r: Option<ScopeConfiguration>)
        ensures
            match r {
                Option::Some(rule) => parse_rule(v@) == Option::Some(rule@),
                Option::None => parse_rule(v@) is None,
            },
    {
        match v {
            JsonValue::Object(entries) => {
                proof {
                    assert(v@ == JsonModel::Object(json_model_entries(entries@)));
                }
                let tk: String = "type".to_owned();
                match object_get(entries, &tk) {
                    Option::Some(JsonValue::Text(t)) => {
                        if *t == "implicit".to_owned() {
                            let ck: String = "collect".to_owned();
                            let collect = match object_get(entries, &ck) {
                                Option::Some(cv) => match Collect::parse(cv) {
                                    Option::Some(c) => c,
                                    Option::None => {
                                        return Option::None;
                                    },
                                },
                                Option::None => {
                                    return Option::None;
                                },
                            };
                            let sk: String = "sessionData".to_owned();
                            match object_get(entries, &sk) {
                                Option::Some(sv) => match SessionData::parse(sv) {
                                    Option::Some(sd) => Option::Some(
                                        ScopeConfiguration::Implicit(ImplicitScope {
                                            collect,
                                            session_data: sd,
                                        }),
                                    ),
                                    Option::None => Option::None,
                                },
                                Option::None => Option::None,
                            }
                        } else if *t == "explicit".to_owned() {
                            let mk: String = "mapping".to_owned();
                            let mapping = match object_get(entries, &mk) {
                                Option::Some(mv) => match ScopeExplicitMapping::parse(
                                    mv) {
                                    Option::Some(m) => m,
                                    Option::None => {
                                        return Option::None;
                                    },
                                },
                                Option::None => {
                                    return Option::None;
                                },
                            };
                            let sk: String = "sessionData".to_owned();
                            match object_get(entries, &sk) {
                                Option::Some(sv) => match SessionData::parse(sv) {
                                    Option::Some(sd) => Option::Some(
                                        ScopeConfiguration::Explicit(ExplicitScope {
                                            mapping,
                                            session_data: sd,
                                        }),
                                    ),
                                    Option::None => Option::None,
                                },
                                Option::None => Option::None,
                            }
                        } else {
                            Option::None
                        }
                    },
                    _ => Option::None,
                }
            },
            _ => Option::None,
        }
    }
}

} // verus!
