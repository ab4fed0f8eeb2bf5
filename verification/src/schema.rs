//! Identity schema nodes and the annotation scanner.
//!
//! A schema node keeps just what the engine reads of a JSON Schema
//! object: its declared properties (each with its subschema) and its
//! remaining members, which carry extension annotations. The scanner
//! walks the node tree and collects, for every scope named in an
//! annotation under the configured keyword, the pointer of the node that
//! declared it.

use vstd::prelude::*;

use crate::cache::{idx_insert, idx_merge, ImplicitScopeCache};
use crate::json::{
    json_model, json_model_entries, json_model_seq, lemma_json_model_entries,
    lemma_member_lookup_decreases, member_lookup, object_member_position, JsonModel,
    JsonValue,
};
use crate::pointer::Pointer;
use crate::rules::ImplicitScope;
use crate::scope::Scope;

verus! {

/// Why a request cannot be served: the schema could not be fetched, or
/// what came back is not an identity schema of the expected shape, or
/// the surrounding plumbing failed.
#[derive(Debug, Clone, Copy, PartialEq, Eq, Structural)]
pub enum SchemaError {
    /// The identity collaborator could not supply the schema.
    Kratos,
    /// The schema document does not have the expected structure.
    IdentitySchemaMalformed,
    /// A value could not be rewritten into another form.
    Serde,
    /// Output could not be written.
    Io,
}

/// The model of a schema node: its properties and its annotations.
pub struct NodeModel {
    pub properties: Seq<(Seq<char>, NodeModel)>,
    pub annotations: Seq<(Seq<char>, JsonModel)>,
}

/// A schema node: the declared properties, in order, and every other
/// member of the schema object, kept as annotations.
#[derive(Debug, PartialEq, Eq)]
pub struct SchemaNode {
    pub properties: Vec<(String, SchemaNode)>,
    pub annotations: Vec<(String, JsonValue)>,
}

/// The model of a schema node.
pub open spec fn node_model(n: SchemaNode) -> NodeModel
    decreases n, 2int,
{
    NodeModel {
        properties: node_model_entries(n.properties@),
        annotations: json_model_entries(n.annotations@),
    }
}

/// The models of a property list, property by property.
pub open spec fn node_model_entries(s: Seq<(String, SchemaNode)>)
    -> Seq<(Seq<char>, NodeModel)>
    decreases s, 1int,
{
    if s.len() == 0 {
        Seq::empty()
    } else {
        seq![(s[0].0@, node_model(s[0].1))] + node_model_entries(s.drop_first())
    }
}

impl View for SchemaNode {
    type V = NodeModel;

    open spec fn view(&self) -> NodeModel {
        node_model(*self)
    }
}

/// `node_model_entries` models each property's name and subschema
/// pointwise.
pub proof fn lemma_node_model_entries(s: Seq<(String, SchemaNode)>)
    ensures
        node_model_entries(s).len() == s.len(),
        forall|i: int| 0 <= i < s.len() ==> node_model_entries(s)[i]
            == (s[i].0@, node_model(s[i].1)),
    decreases s.len(),
{
    if s.len() > 0 {
        lemma_node_model_entries(s.drop_first());
    }
}

/// The members of an object with every member named `key` removed.
pub open spec fn drop_members(entries: Seq<(Seq<char>, JsonModel)>, key: Seq<char>)
    -> Seq<(Seq<char>, JsonModel)>
    decreases entries.len(),
{
    if entries.len() == 0 {
        Seq::empty()
    } else if entries[0].0 == key {
        drop_members(entries.drop_first(), key)
    } else {
        seq![entries[0]] + drop_members(entries.drop_first(), key)
    }
}

/// The schema node a JSON value describes: a boolean schema has nothing
/// to read; an object schema contributes its `properties` members (each
/// of which must itself describe a node) and keeps its other members as
/// annotations; anything else is malformed.
pub open spec fn parse_node(m: JsonModel) -> Option<NodeModel>
    decreases m, 0int
        via parse_node_decreases
{
    match m {
        JsonModel::Bool(_) => Option::Some(NodeModel {
            properties: Seq::empty(),
            annotations: Seq::empty(),
        }),
        JsonModel::Object(entries) => {
            let annotations = drop_members(entries, "properties"@);
            match member_lookup(entries, "properties"@) {
                Option::None => Option::Some(NodeModel {
                    properties: Seq::empty(),
                    annotations,
                }),
                Option::Some(JsonModel::Object(props)) => match parse_node_entries(props) {
                    Option::Some(ps) => Option::Some(NodeModel {
                        properties: ps,
                        annotations,
                    }),
                    Option::None => Option::None,
                },
                Option::Some(_) => Option::None,
            }
        },
        _ => Option::None,
    }
}

/// The schema nodes of a property member list, each value parsed in
/// turn; fails if any value is not a schema node.
pub open spec fn parse_node_entries(props: Seq<(Seq<char>, JsonModel)>)
    -> Option<Seq<(Seq<char>, NodeModel)>>
    decreases props, 1int,
{
    if props.len() == 0 {
        Option::Some(Seq::empty())
    } else {
        match parse_node(props[0].1) {
            Option::Some(nm) => match parse_node_entries(props.drop_first()) {
                Option::Some(rest) => Option::Some(seq![(props[0].0, nm)] + rest),
                Option::None => Option::None,
            },
            Option::None => Option::None,
        }
    }
}

#[via_fn]
proof fn parse_node_decreases(m: JsonModel) {
    match m {
        JsonModel::Object(entries) => {
            if member_lookup(entries, "properties"@) is Some {
                lemma_member_lookup_decreases(entries, "properties"@);
                assert(decreases_to!(m => m->Object_0));
                match member_lookup(entries, "properties"@) {
                    Option::Some(pv) => {
                        if pv matches JsonModel::Object(props) {
                            assert(decreases_to!(pv => pv->Object_0));
                        }
                    },
                    Option::None => {},
                }
            }
        },
        _ => {},
    }
}

impl SchemaNode {
    /// Reads a schema node out of a JSON value; a value that does not
    /// have the shape of a schema object is a malformed identity schema.
    pub fn parse(v: &JsonValue) -> (r: Result<SchemaNode, SchemaError>)
        ensures
            match r {
                Result::Ok(n) => parse_node(v@) == Option::Some(n@),
                Result::Err(e) => parse_node(v@) is None
                    && e == SchemaError::IdentitySchemaMalformed,
            },
        decreases *v, 1int,
    {
        match v {
            JsonValue::Bool(_) => Result::Ok(SchemaNode {
                properties: Vec::new(),
                annotations: Vec::new(),
            }),
            JsonValue::Object(entries) => {
                proof {
                    assert(v@ == JsonModel::Object(json_model_entries(entries@)));
                }
                let pk: String = "properties".to_owned();
                let annotations = keep_other_members(entries, &pk);
                match object_member_position(entries, &pk) {
                    Option::None => Result::Ok(SchemaNode {
                        properties: Vec::new(),
                        annotations,
                    }),
                    Option::Some(i) => {
                        match &entries[i].1 {
                            JsonValue::Object(props) => {
                                proof {
                                    assert(entries@[i as int].1@
                                        == JsonModel::Object(json_model_entries(props@)));
                                }
                                match Self::parse_entries(v, entries, i, props) {
                                    Result::Ok(ps) => Result::Ok(SchemaNode {
                                        properties: ps,
                                        annotations,
                                    }),
                                    Result::Err(e) => Result::Err(e),
                                }
                            },
                            _ => Result::Err(SchemaError::IdentitySchemaMalformed),
                        }
                    },
                }
            },
            _ => Result::Err(SchemaError::IdentitySchemaMalformed),
        }
    }

    /// Reads every property's subschema of a `properties` member that
    /// sits at position `i` of `entries` inside the object `v`.
    #[verifier::loop_isolation(false)]
    fn parse_entries(
        v: &JsonValue,
        entries: &Vec<(String, JsonValue)>,
        i: usize,
        props: &Vec<(String, JsonValue)>,
    ) -> (r: Result<Vec<(String, SchemaNode)>, SchemaError>)
        requires
            *v == JsonValue::Object(*entries),
            i < entries@.len(),
            entries@[i as int].1 == JsonValue::Object(*props),
        ensures
            match r {
                Result::Ok(ps) => parse_node_entries(json_model_entries(props@))
                    == Option::Some(node_model_entries(ps@)),
                Result::Err(e) => parse_node_entries(json_model_entries(props@)) is None
                    && e == SchemaError::IdentitySchemaMalformed,
            },
        decreases *v, 0int,
    {
        let ghost pm = json_model_entries(props@);
        proof {
            lemma_json_model_entries(props@);
        }
        let n: usize = props.len();
        let mut out: Vec<(String, SchemaNode)> = Vec::new();
        let mut t: usize = 0;
        proof {
            assert(pm.skip(0) =~= pm);
            assert(node_model_entries(out@) =~= Seq::<(Seq<char>, NodeModel)>::empty());
        }
        while t < n
            invariant
                0 <= t <= n,
                n == props@.len(),
                pm.len() == n,
                out@.len() == t,
                parse_node_entries(pm.skip(t as int)) matches Option::Some(rest)
                    ==> parse_node_entries(pm)
                        == Option::Some(node_model_entries(out@) + rest),
                parse_node_entries(pm.skip(t as int)) is None
                    ==> parse_node_entries(pm) is None,
            decreases n - t,
        {
            let ghost rest = pm.skip(t as int);
            proof {
                assert(rest[0] == pm[t as int]);
                assert(rest.drop_first() =~= pm.skip(t as int + 1));
                assert(pm[t as int] == (props@[t as int].0@,
                    json_model(props@[t as int].1)));
                assert(decreases_to!(*v => v->Object_0));
                assert(decreases_to!(*entries => entries[i as int]));
                assert(decreases_to!(entries[i as int] => entries[i as int].1));
                assert(decreases_to!(entries[i as int].1
                    => entries[i as int].1->Object_0));
                assert(entries[i as int].1->Object_0 == *props);
                assert(decreases_to!(*props => props[t as int]));
                assert(decreases_to!(props[t as int] => props[t as int].1));
            }
            match Self::parse(&props[t].1) {
                Result::Ok(node) => {
                    let key = props[t].0.clone();
                    let ghost out0 = out@;
                    out.push((key, node));
                    proof {
                        lemma_node_model_entries(out@);
                        lemma_node_model_entries(out0);
                        assert(node_model_entries(out@) =~= node_model_entries(out0)
                            + seq![(props@[t as int].0@, node@)]);
                        if let Option::Some(r2) = parse_node_entries(pm.skip(
                            t as int + 1)) {
                            assert(parse_node_entries(rest)
                                == Option::Some(seq![(pm[t as int].0, node@)] + r2));
                            assert(node_model_entries(out0)
                                + (seq![(pm[t as int].0, node@)] + r2)
                                =~= node_model_entries(out@) + r2);
                        }
                    }
                },
                Result::Err(e) => {
                    return Result::Err(e);
                },
            }
            t = t + 1;
        }
        proof {
            assert(pm.skip(n as int) =~= Seq::<(Seq<char>, JsonModel)>::empty());
            assert(parse_node_entries(pm.skip(n as int))
                == Option::Some(Seq::<(Seq<char>, NodeModel)>::empty()));
            assert(node_model_entries(out@) + Seq::<(Seq<char>, NodeModel)>::empty()
                =~= node_model_entries(out@));
        }
        Result::Ok(out)
    }
}

/// Copies every member not named `key`, in order.
fn keep_other_members(entries: &Vec<(String, JsonValue)>, key: &String)
    -> (r: Vec<(String, JsonValue)>)
    ensures
        json_model_entries(r@) == drop_members(json_model_entries(entries@), key@),
{
    let ghost em = json_model_entries(entries@);
    proof {
        lemma_json_model_entries(entries@);
    }
    let n: usize = entries.len();
    let mut out: Vec<(String, JsonValue)> = Vec::new();
    let mut k: usize = 0;
    proof {
        assert(em.skip(0) =~= em);
        assert(json_model_entries(out@) =~= Seq::<(Seq<char>, JsonModel)>::empty());
    }
    while k < n
        invariant
            0 <= k <= n,
            n == entries@.len(),
            em == json_model_entries(entries@),
            em.len() == n,
            drop_members(em, key@) == json_model_entries(out@)
                + drop_members(em.skip(k as int), key@),
        decreases n - k,
    {
        let ghost rest = em.skip(k as int);
        proof {
            lemma_json_model_entries(entries@);
            assert(rest[0] == em[k as int]);
            assert(rest.drop_first() =~= em.skip(k as int + 1));
            assert(em[k as int] == (entries@[k as int].0@,
                json_model(entries@[k as int].1)));
        }
        if !(entries[k].0 == *key) {
            let ghost out0 = out@;
            let member = (entries[k].0.clone(), entries[k].1.clone());
            out.push(member);
            proof {
                lemma_json_model_entries(out@);
                lemma_json_model_entries(out0);
                assert(json_model_entries(out@) =~= json_model_entries(out0)
                    + seq![em[k as int]]);
                assert(json_model_entries(out0) + (seq![em[k as int]]
                    + drop_members(em.skip(k as int + 1), key@))
                    =~= json_model_entries(out@)
                        + drop_members(em.skip(k as int + 1), key@));
            }
        }
        k = k + 1;
    }
    proof {
        assert(em.skip(n as int) =~= Seq::<(Seq<char>, JsonModel)>::empty());
        assert(json_model_entries(out@) + Seq::<(Seq<char>, JsonModel)>::empty()
            =~= json_model_entries(out@));
    }
    out
}

/// The scope names listed in an annotation's `scopes` array; fails if
/// any element is not a string.
pub open spec fn parse_scope_list(items: Seq<JsonModel>) -> Option<Seq<Seq<char>>>
    decreases items.len(),
{
    if items.len() == 0 {
        Option::Some(Seq::empty())
    } else {
        match items[0] {
            JsonModel::Text(t) => match parse_scope_list(items.drop_first()) {
                Option::Some(r) => Option::Some(seq![t] + r),
                Option::None => Option::None,
            },
            _ => Option::None,
        }
    }
}

/// The scopes an extension value declares: it must be an object whose
/// `scopes` member is an array of strings.
pub open spec fn annotation_scopes(m: JsonModel) -> Option<Seq<Seq<char>>> {
    match m {
        JsonModel::Object(entries) => match member_lookup(entries, "scopes"@) {
            Option::Some(JsonModel::Array(items)) => parse_scope_list(items),
            _ => Option::None,
        },
        _ => Option::None,
    }
}

/// The scope list an extension annotation declares.
#[derive(Debug, PartialEq, Eq)]
pub struct TraitConfiguration {
    pub scopes: Vec<Scope>,
}

impl TraitConfiguration {
    /// Reads `{"scopes": [...]}` out of an extension value; any other
    /// shape is rejected as a whole.
    pub fn parse(v: &JsonValue) -> (r: Option<TraitConfiguration>)
        ensures
            match r {
                Option::Some(tc) => annotation_scopes(v@)
                    == Option::Some(tc.scopes.deep_view()),
                Option::None => annotation_scopes(v@) is None,
            },
    {
        match v {
            JsonValue::Object(entries) => {
                proof {
                    assert(v@ == JsonModel::Object(json_model_entries(entries@)));
                }
                let sk: String = "scopes".to_owned();
                match object_member_position(entries, &sk) {
                    Option::Some(i) => match &entries[i].1 {
                        JsonValue::Array(items) => {
                            proof {
                                assert(entries@[i as int].1@
                                    == JsonModel::Array(json_model_seq(items@)));
                            }
                            match Self::parse_items(items) {
                                Option::Some(scopes) => Option::Some(
                                    TraitConfiguration { scopes },
                                ),
                                Option::None => Option::None,
                            }
                        },
                        _ => Option::None,
                    },
                    Option::None => Option::None,
                }
            },
            _ => Option::None,
        }
    }

    /// Reads each element of a `scopes` array as a scope name.
    fn parse_items(items: &Vec<JsonValue>) -> (r: Option<Vec<Scope>>)
        ensures
            match r {
                Option::Some(scopes) => parse_scope_list(json_model_seq(items@))
                    == Option::Some(scopes.deep_view()),
                Option::None => parse_scope_list(json_model_seq(items@)) is None,
            },
    {
        let ghost im = json_model_seq(items@);
        proof {
            crate::json::lemma_json_model_seq(items@);
        }
        let n: usize = items.len();
        let mut out: Vec<Scope> = Vec::new();
        let mut t: usize = 0;
        proof {
            assert(im.skip(0) =~= im);
            assert(out.deep_view() =~= Seq::<Seq<char>>::empty());
        }
        while t < n
            invariant
                0 <= t <= n,
                n == items@.len(),
                im == json_model_seq(items@),
                im.len() == n,
                out@.len() == t,
                parse_scope_list(im.skip(t as int)) matches Option::Some(rest)
                    ==> parse_scope_list(im) == Option::Some(out.deep_view() + rest),
                parse_scope_list(im.skip(t as int)) is None
                    ==> parse_scope_list(im) is None,
            decreases n - t,
        {
            let ghost rest = im.skip(t as int);
            proof {
                crate::json::lemma_json_model_seq(items@);
                assert(rest[0] == im[t as int]);
                assert(rest.drop_first() =~= im.skip(t as int + 1));
                assert(im[t as int] == json_model(items@[t as int]));
            }
            match &items[t] {
                JsonValue::Text(s) => {
                    let ghost out0 = out.deep_view();
                    out.push(Scope::new(s.clone()));
                    proof {
                        assert(out.deep_view() =~= out0 + seq![s@]);
                        if let Option::Some(r2) = parse_scope_list(im.skip(
                            t as int + 1)) {
                            assert(parse_scope_list(rest)
                                == Option::Some(seq![s@] + r2));
                            assert(out0 + (seq![s@] + r2)
                                =~= out.deep_view() + r2);
                        }
                    }
                },
                _ => {
                    return Option::None;
                },
            }
            t = t + 1;
        }
        proof {
            assert(im.skip(n as int) =~= Seq::<JsonModel>::empty());
            assert(out.deep_view() + Seq::<Seq<char>>::empty() =~= out.deep_view());
        }
        Option::Some(out)
    }
}

/// The index with `ptr` registered for each scope in `scopes`, in order.
pub open spec fn register_all(
    ix: Seq<(Seq<char>, Seq<Seq<Seq<char>>>)>,
    scopes: Seq<Seq<char>>,
    ptr: Seq<Seq<char>>,
) -> Seq<(Seq<char>, Seq<Seq<Seq<char>>>)>
    decreases scopes.len(),
{
    if scopes.len() == 0 {
        ix
    } else {
        register_all(idx_insert(ix, scopes[0], ptr), scopes.drop_first(), ptr)
    }
}

/// What scanning a node at `path` yields: the union of the children's
/// indices, property by property in order, then the node's own
/// annotation under `kw`, if it parses; a malformed annotation
/// contributes nothing.
pub open spec fn scan_node(kw: Seq<char>, node: NodeModel, path: Seq<Seq<char>>)
    -> Seq<(Seq<char>, Seq<Seq<Seq<char>>>)>
    decreases node, 0int,
{
    let base = scan_entries(kw, node.properties, path);
    match member_lookup(node.annotations, kw) {
        Option::Some(ext) => match annotation_scopes(ext) {
            Option::Some(scopes) => register_all(base, scopes, path),
            Option::None => base,
        },
        Option::None => base,
    }
}

/// The union of the indices scanned from a property list, each child at
/// the path extended by its property name.
pub open spec fn scan_entries(
    kw: Seq<char>,
    props: Seq<(Seq<char>, NodeModel)>,
    path: Seq<Seq<char>>,
) -> Seq<(Seq<char>, Seq<Seq<Seq<char>>>)>
    decreases props, 1int,
{
    if props.len() == 0 {
        Seq::empty()
    } else {
        idx_merge(
            scan_entries(kw, props.drop_last(), path),
            scan_node(kw, props.last().1, path.push(props.last().0)),
        )
    }
}

/// Registering a pointer for a list of scopes keeps scope names unique.
pub proof fn lemma_register_all_wf(
    ix: Seq<(Seq<char>, Seq<Seq<Seq<char>>>)>,
    scopes: Seq<Seq<char>>,
    ptr: Seq<Seq<char>>,
)
    requires
        crate::cache::idx_wf(ix),
    ensures
        crate::cache::idx_wf(register_all(ix, scopes, ptr)),
    decreases scopes.len(),
{
    if scopes.len() > 0 {
        crate::cache::lemma_idx_insert_wf(ix, scopes[0], ptr);
        lemma_register_all_wf(idx_insert(ix, scopes[0], ptr), scopes.drop_first(),
            ptr);
    }
}

/// A scanned index never names a scope twice: each scope keeps one
/// entry, at the position of its first registration.
pub proof fn lemma_scan_node_wf(kw: Seq<char>, node: NodeModel, path: Seq<Seq<char>>)
    ensures
        crate::cache::idx_wf(scan_node(kw, node, path)),
    decreases node, 0int,
{
    lemma_scan_entries_wf(kw, node.properties, path);
    let base = scan_entries(kw, node.properties, path);
    match member_lookup(node.annotations, kw) {
        Option::Some(ext) => match annotation_scopes(ext) {
            Option::Some(scopes) => {
                lemma_register_all_wf(base, scopes, path);
            },
            Option::None => {},
        },
        Option::None => {},
    }
}

/// The union of the children's indices never names a scope twice.
pub proof fn lemma_scan_entries_wf(
    kw: Seq<char>,
    props: Seq<(Seq<char>, NodeModel)>,
    path: Seq<Seq<char>>,
)
    ensures
        crate::cache::idx_wf(scan_entries(kw, props, path)),
    decreases props, 1int,
{
    if props.len() > 0 {
        lemma_scan_entries_wf(kw, props.drop_last(), path);
        crate::cache::lemma_idx_merge_wf(
            scan_entries(kw, props.drop_last(), path),
            scan_node(kw, props.last().1, path.push(props.last().0)),
        );
    }
}

/// A copy of a token path.
fn clone_tokens(v: &Vec<String>) -> (r: Vec<String>)
    ensures
        r.deep_view() == v.deep_view(),
{
    let n: usize = v.len();
    let mut out: Vec<String> = Vec::new();
    let mut i: usize = 0;
    while i < n
        invariant
            0 <= i <= n,
            n == v@.len(),
            out@.len() == i,
            forall|j: int| 0 <= j < i ==> out@[j]@ == v@[j]@,
        decreases n - i,
    {
        out.push(v[i].clone());
        i = i + 1;
    }
    proof {
        assert(out.deep_view() =~= v.deep_view());
    }
    out
}

impl ImplicitScope {
    /// Scans a schema node tree: child properties first, in order, then
    /// the node's own annotation under `keyword`. The node is only
    /// read, and the result is a pure function of the inputs, so
    /// scanning the same schema again yields an identical index.
    pub fn find(keyword: &String, node: &SchemaNode, path: Vec<String>)
        -> (r: ImplicitScopeCache)
        ensures
            r@ == scan_node(keyword@, node@, path.deep_view()),
        decreases *node, 0int,
    {
        proof {
            assert(decreases_to!(*node => node.properties));
        }
        let mut pointers = Self::find_object(keyword, &node.properties, &path);
        let ghost base = pointers@;
        match object_member_position(&node.annotations, keyword) {
            Option::Some(i) => {
                proof {
                    assert(node@.annotations == json_model_entries(node.annotations@));
                }
                match TraitConfiguration::parse(&node.annotations[i].1) {
                    Option::Some(tc) => {
                        let ghost sm = tc.scopes.deep_view();
                        let pointer = Pointer::from_tokens(path);
                        let n: usize = tc.scopes.len();
                        let mut t: usize = 0;
                        proof {
                            assert(sm.skip(0) =~= sm);
                        }
                        while t < n
                            invariant
                                0 <= t <= n,
                                n == tc.scopes@.len(),
                                sm == tc.scopes.deep_view(),
                                sm.len() == n,
                                register_all(base, sm, pointer@)
                                    == register_all(pointers@, sm.skip(t as int),
                                        pointer@),
                            decreases n - t,
                        {
                            let ghost rest = sm.skip(t as int);
                            proof {
                                assert(rest[0] == sm[t as int]);
                                assert(rest.drop_first() =~= sm.skip(t as int + 1));
                                assert(sm[t as int] == tc.scopes@[t as int]@);
                            }
                            pointers.insert(tc.scopes[t].clone(), pointer.clone());
                            t = t + 1;
                        }
                        proof {
                            assert(sm.skip(n as int) =~= Seq::<Seq<char>>::empty());
                        }
                    },
                    Option::None => {},
                }
            },
            Option::None => {},
        }
        pointers
    }

    /// Scans every property's subschema, path extended by the property
    /// name, and merges the results in property order.
    #[verifier::loop_isolation(false)]
    fn find_object(keyword: &String, properties: &Vec<(String, SchemaNode)>,
        path: &Vec<String>)
        -> (r: ImplicitScopeCache)
        ensures
            r@ == scan_entries(keyword@, node_model_entries(properties@),
                path.deep_view()),
        decreases *properties, 1int,
    {
        let ghost pm = node_model_entries(properties@);
        proof {
            lemma_node_model_entries(properties@);
        }
        let n: usize = properties.len();
        let mut pointers = ImplicitScopeCache::new();
        let mut k: usize = 0;
        proof {
            assert(pm.take(0) =~= Seq::<(Seq<char>, NodeModel)>::empty());
        }
        while k < n
            invariant
                0 <= k <= n,
                pointers@ == scan_entries(keyword@, pm.take(k as int),
                    path.deep_view()),
            decreases n - k,
        {
            proof {
                assert(decreases_to!(*properties => properties[k as int]));
                assert(decreases_to!(properties[k as int]
                    => properties[k as int].1));
            }
            let mut child_path = clone_tokens(path);
            child_path.push(properties[k].0.clone());
            proof {
                assert(child_path.deep_view()
                    =~= path.deep_view().push(properties@[k as int].0@));
            }
            let child = Self::find(keyword, &properties[k].1, child_path);
            pointers.merge(child);
            proof {
                let tk = pm.take(k as int + 1);
                assert(tk.drop_last() =~= pm.take(k as int));
                assert(tk.last() == pm[k as int]);
                assert(pm[k as int] == (properties@[k as int].0@,
                    node_model(properties@[k as int].1)));
            }
            k = k + 1;
        }
        proof {
            assert(pm.take(n as int) =~= pm);
        }
        pointers
    }
}

} // verus!
