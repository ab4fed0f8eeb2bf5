//! The scope plan and its compiler.
//!
//! A plan maps each scope to the rule that computes its claim value.
//! Compiling starts from the rules declared at the schema root under the
//! configured keyword, then fills in defaults: one per scanned index
//! scope, and — when direct mapping is on — one per first-level schema
//! property. A declared rule is never overwritten by either pass, and an
//! index default is never overwritten by a direct-mapping default.

use vstd::prelude::*;
use vstd::pervasive::VecAdditionalExecFns;

use crate::assoc::{
    assoc_lookup, assoc_set, lemma_assoc_lookup_push, lemma_assoc_set_absent,
    lemma_assoc_set_found,
};
use crate::cache::{idx_insert, idx_keys, idx_lookup, ScopeCache};
use crate::json::{json_model_entries, json_model_seq, member_lookup, JsonModel,
    JsonValue};
use crate::pointer::resolve_model;
use crate::rules::{parse_rule, resolve_mapping, RuleModel, ScopeConfiguration};
use crate::rules::{ExplicitScope, ImplicitScope};
use crate::schema::{NodeModel, SchemaNode};
use crate::scope::{Collect, Scope, SessionData, SessionModel};

verus! {

/// The rule synthesized for a scope no declared rule covers: take the
/// first value, and emit it into both tokens under the scope's own name.
pub open spec fn default_rule(name: Seq<char>) -> RuleModel {
    RuleModel::Implicit {
        collect: Collect::First,
        session: SessionModel {
            id_token: Option::Some(name),
            access_token: Option::Some(name),
        },
    }
}

/// The plan a root configuration value declares: its `scopes` member,
/// each rule parsed, later entries of a name overriding earlier ones.
pub open spec fn parse_config(m: JsonModel) -> Option<Seq<(Seq<char>, RuleModel)>> {
    match m {
        JsonModel::Object(entries) => match member_lookup(entries, "scopes"@) {
            Option::Some(JsonModel::Object(scope_entries)) => parse_config_entries(
                scope_entries,
                Seq::empty(),
            ),
            _ => Option::None,
        },
        _ => Option::None,
    }
}

/// The declared rules folded into a plan, entry by entry.
pub open spec fn parse_config_entries(
    entries: Seq<(Seq<char>, JsonModel)>,
    acc: Seq<(Seq<char>, RuleModel)>,
) -> Option<Seq<(Seq<char>, RuleModel)>>
    decreases entries.len(),
{
    if entries.len() == 0 {
        Option::Some(acc)
    } else {
        match parse_rule(entries[0].1) {
            Option::Some(r) => parse_config_entries(
                entries.drop_first(),
                assoc_set(acc, entries[0].0, r),
            ),
            Option::None => Option::None,
        }
    }
}

/// The plan a schema root declares under `kw`: absent or unparseable
/// configuration contributes an empty plan.
pub open spec fn create_model(kw: Seq<char>, node: NodeModel)
    -> Seq<(Seq<char>, RuleModel)>
{
    match member_lookup(node.annotations, kw) {
        Option::Some(ext) => match parse_config(ext) {
            Option::Some(p) => p,
            Option::None => Seq::empty(),
        },
        Option::None => Seq::empty(),
    }
}

/// The plan with a default rule appended for every index scope that has
/// no rule yet, in index order.
pub open spec fn add_implicit_defaults(
    plan: Seq<(Seq<char>, RuleModel)>,
    keys: Seq<Seq<char>>,
) -> Seq<(Seq<char>, RuleModel)>
    decreases keys.len(),
{
    if keys.len() == 0 {
        plan
    } else {
        let p2 = if assoc_lookup(plan, keys[0]) is Some {
            plan
        } else {
            plan.push((keys[0], default_rule(keys[0])))
        };
        add_implicit_defaults(p2, keys.drop_first())
    }
}

/// The plan and index with a default rule and a one-token pointer added
/// for every first-level property that has no rule yet, in property
/// order.
pub open spec fn add_direct_defaults(
    plan: Seq<(Seq<char>, RuleModel)>,
    ix: Seq<(Seq<char>, Seq<Seq<Seq<char>>>)>,
    keys: Seq<Seq<char>>,
) -> (Seq<(Seq<char>, RuleModel)>, Seq<(Seq<char>, Seq<Seq<Seq<char>>>)>)
    decreases keys.len(),
{
    if keys.len() == 0 {
        (plan, ix)
    } else if assoc_lookup(plan, keys[0]) is Some {
        add_direct_defaults(plan, ix, keys.drop_first())
    } else {
        add_direct_defaults(
            plan.push((keys[0], default_rule(keys[0]))),
            idx_insert(ix, keys[0], seq![keys[0]]),
            keys.drop_first(),
        )
    }
}

/// The first-level property names of a schema node, in order.
pub open spec fn prop_keys(node: NodeModel) -> Seq<Seq<char>> {
    node.properties.map_values(|e: (Seq<char>, NodeModel)| e.0)
}

/// What compiling a schema root yields: the declared plan, then the
/// index defaults, then — with direct mapping on — the direct defaults,
/// which also extend the index.
pub open spec fn from_root_model(
    kw: Seq<char>,
    node: NodeModel,
    ix: Seq<(Seq<char>, Seq<Seq<Seq<char>>>)>,
    direct_mapping: bool,
) -> (Seq<(Seq<char>, RuleModel)>, Seq<(Seq<char>, Seq<Seq<Seq<char>>>)>) {
    let declared = create_model(kw, node);
    let p1 = add_implicit_defaults(declared, idx_keys(ix));
    if direct_mapping {
        add_direct_defaults(p1, ix, prop_keys(node))
    } else {
        (p1, ix)
    }
}

/// The index-default pass never changes a rule that already exists.
pub proof fn lemma_add_implicit_preserves(
    plan: Seq<(Seq<char>, RuleModel)>,
    keys: Seq<Seq<char>>,
    name: Seq<char>,
)
    requires
        assoc_lookup(plan, name) is Some,
    ensures
        assoc_lookup(add_implicit_defaults(plan, keys), name)
            == assoc_lookup(plan, name),
    decreases keys.len(),
{
    if keys.len() > 0 {
        let p2 = if assoc_lookup(plan, keys[0]) is Some {
            plan
        } else {
            plan.push((keys[0], default_rule(keys[0])))
        };
        lemma_assoc_lookup_push(plan, (keys[0], default_rule(keys[0])), name);
        lemma_add_implicit_preserves(p2, keys.drop_first(), name);
    }
}

/// The direct-mapping pass never changes a rule that already exists.
pub proof fn lemma_add_direct_preserves(
    plan: Seq<(Seq<char>, RuleModel)>,
    ix: Seq<(Seq<char>, Seq<Seq<Seq<char>>>)>,
    keys: Seq<Seq<char>>,
    name: Seq<char>,
)
    requires
        assoc_lookup(plan, name) is Some,
    ensures
        assoc_lookup(add_direct_defaults(plan, ix, keys).0, name)
            == assoc_lookup(plan, name),
    decreases keys.len(),
{
    if keys.len() > 0 {
        if assoc_lookup(plan, keys[0]) is Some {
            lemma_add_direct_preserves(plan, ix, keys.drop_first(), name);
        } else {
            lemma_assoc_lookup_push(plan, (keys[0], default_rule(keys[0])), name);
            lemma_add_direct_preserves(
                plan.push((keys[0], default_rule(keys[0]))),
                idx_insert(ix, keys[0], seq![keys[0]]),
                keys.drop_first(),
                name,
            );
        }
    }
}

/// Precedence law: a rule declared in the root configuration is never
/// overwritten by the index-default pass nor by the direct-mapping
/// pass, and an index default is likewise never overwritten by a
/// direct-mapping default.
pub proof fn lemma_declared_rules_kept(
    kw: Seq<char>,
    node: NodeModel,
    ix: Seq<(Seq<char>, Seq<Seq<Seq<char>>>)>,
    direct_mapping: bool,
    name: Seq<char>,
)
    ensures
        assoc_lookup(create_model(kw, node), name) is Some
            ==> assoc_lookup(from_root_model(kw, node, ix, direct_mapping).0, name)
                == assoc_lookup(create_model(kw, node), name),
        assoc_lookup(add_implicit_defaults(create_model(kw, node), idx_keys(ix)),
            name) is Some
            ==> assoc_lookup(from_root_model(kw, node, ix, direct_mapping).0, name)
                == assoc_lookup(add_implicit_defaults(create_model(kw, node),
                    idx_keys(ix)), name),
{
    let declared = create_model(kw, node);
    let p1 = add_implicit_defaults(declared, idx_keys(ix));
    if assoc_lookup(declared, name) is Some {
        lemma_add_implicit_preserves(declared, idx_keys(ix), name);
    }
    if assoc_lookup(p1, name) is Some && direct_mapping {
        lemma_add_direct_preserves(p1, ix, prop_keys(node), name);
    }
}

/// The models of plan entries given as scope/rule pairs.
pub open spec fn pairs_model(s: Seq<(Scope, ScopeConfiguration)>)
    -> Seq<(Seq<char>, RuleModel)>
{
    Seq::new(s.len(), |i: int| (s[i].0@, s[i].1@))
}

/// Entries folded into a plan in order: a later entry of a name
/// overrides an earlier one, keeping its position.
pub open spec fn plan_fold(
    entries: Seq<(Seq<char>, RuleModel)>,
    acc: Seq<(Seq<char>, RuleModel)>,
) -> Seq<(Seq<char>, RuleModel)>
    decreases entries.len(),
{
    if entries.len() == 0 {
        acc
    } else {
        plan_fold(entries.drop_first(), assoc_set(acc, entries[0].0, entries[0].1))
    }
}

/// The compiled resolution plan of one schema: each scope, in plan
/// order, with the rule that computes its claim value.
#[derive(Debug, PartialEq, Eq)]
pub struct ScopeConfig {
    scopes: Vec<(Scope, ScopeConfiguration)>,
}

impl View for ScopeConfig {
    type V = Seq<(Seq<char>, RuleModel)>;

    closed spec fn view(&self) -> Seq<(Seq<char>, RuleModel)> {
        Seq::new(self.scopes@.len(), |i: int| (self.scopes@[i].0@, self.scopes@[i].1@))
    }
}

impl Clone for ScopeConfig {
    /// A copy with the same plan.
    fn clone(&self) -> (r: Self)
        ensures
            r@ == self@,
    {
        let n: usize = self.scopes.len();
        let mut scopes: Vec<(Scope, ScopeConfiguration)> = Vec::new();
        let mut i: usize = 0;
        while i < n
            invariant
                0 <= i <= n,
                n == self.scopes@.len(),
                scopes@.len() == i,
                forall|j: int| 0 <= j < i ==> scopes@[j].0@ == self.scopes@[j].0@
                    && scopes@[j].1@ == self.scopes@[j].1@,
            decreases n - i,
        {
            let scope = self.scopes[i].0.clone();
            let rule = self.scopes[i].1.clone();
            scopes.push((scope, rule));
            i = i + 1;
        }
        let r = ScopeConfig { scopes };
        proof {
            assert(r@ =~= self@);
        }
        r
    }
}

impl ScopeConfig {
    /// The empty plan.
    pub fn empty() -> (r: Self)
        ensures
            r@ == Seq::<(Seq<char>, RuleModel)>::empty(),
    {
        let r = ScopeConfig { scopes: Vec::new() };
        proof {
            assert(r@ =~= Seq::<(Seq<char>, RuleModel)>::empty());
        }
        r
    }

    /// How many scopes the plan holds.
    pub fn len(&self) -> (r: usize)
        ensures
            r == self@.len(),
    {
        self.scopes.len()
    }

    /// The entry at position `i` of the plan.
    pub fn entry_at(&self, i: usize) -> (r: &(Scope, ScopeConfiguration))
        requires
            i < self@.len(),
        ensures
            r.0@ == self@[i as int].0,
            r.1@ == self@[i as int].1,
    {
        &self.scopes[i]
    }

    /// The plan these entries fold into, in order, a later entry of a
    /// name overriding an earlier one.
    pub fn from_entries(entries: Vec<(Scope, ScopeConfiguration)>) -> (r: Self)
        ensures
            r@ == plan_fold(pairs_model(entries@), Seq::empty()),
    {
        let ghost pm = pairs_model(entries@);
        let n: usize = entries.len();
        let mut out = ScopeConfig::empty();
        let mut k: usize = 0;
        proof {
            assert(pm.skip(0) =~= pm);
        }
        while k < n
            invariant
                0 <= k <= n,
                n == entries@.len(),
                pm == pairs_model(entries@),
                pm.len() == n,
                plan_fold(pm, Seq::empty()) == plan_fold(pm.skip(k as int), out@),
            decreases n - k,
        {
            let ghost rest = pm.skip(k as int);
            proof {
                assert(rest[0] == pm[k as int]);
                assert(rest.drop_first() =~= pm.skip(k as int + 1));
                assert(pm[k as int] == (entries@[k as int].0@,
                    entries@[k as int].1@));
            }
            let scope = entries[k].0.clone();
            let rule = entries[k].1.clone();
            out.set(scope, rule);
            k = k + 1;
        }
        proof {
            assert(pm.skip(n as int) =~= Seq::<(Seq<char>, RuleModel)>::empty());
        }
        out
    }

    /// The position of the first entry for `scope`, if any.
    fn position_of(&self, scope: &Scope) -> (r: Option<usize>)
        ensures
            match r {
                Option::Some(i) => 0 <= i < self@.len() && self@[i as int].0 == scope@
                    && assoc_lookup(self@, scope@)
                        == Option::Some(self@[i as int].1)
                    && (forall|j: int| 0 <= j < i ==> self@[j].0 != scope@),
                Option::None => assoc_lookup(self@, scope@) is None
                    && (forall|j: int| 0 <= j < self@.len()
                        ==> self@[j].0 != scope@),
            },
    {
        let n: usize = self.scopes.len();
        let mut i: usize = 0;
        proof {
            assert(self@.skip(0) =~= self@);
        }
        while i < n
            invariant
                0 <= i <= n,
                n == self@.len(),
                self@.len() == self.scopes@.len(),
                assoc_lookup(self@, scope@)
                    == assoc_lookup(self@.skip(i as int), scope@),
                forall|j: int| 0 <= j < i ==> self@[j].0 != scope@,
            decreases n - i,
        {
            let ghost rest = self@.skip(i as int);
            proof {
                assert(rest[0] == self@[i as int]);
                assert(rest.drop_first() =~= self@.skip(i as int + 1));
            }
            if self.scopes[i].0.same_as(scope) {
                return Option::Some(i);
            }
            i = i + 1;
        }
        proof {
            assert(self@.skip(n as int) =~= Seq::<(Seq<char>, RuleModel)>::empty());
        }
        Option::None
    }

    /// The rule declared for `scope`, if the plan holds one.
    pub fn find_scope(&self, scope: &Scope) -> (r: Option<&ScopeConfiguration>)
        ensures
            match r {
                Option::Some(c) => assoc_lookup(self@, scope@) == Option::Some(c@),
                Option::None => assoc_lookup(self@, scope@) is None,
            },
    {
        match self.position_of(scope) {
            Option::Some(i) => Option::Some(&self.scopes[i].1),
            Option::None => Option::None,
        }
    }

    /// Sets `scope`'s rule: rewrites its entry in place, or appends one.
    fn set(&mut self, scope: Scope, rule: ScopeConfiguration)
        ensures
            final(self)@ == assoc_set(old(self)@, scope@, rule@),
    {
        let ghost v0 = self@;
        let ghost sm = scope@;
        let ghost rm = rule@;
        match self.position_of(&scope) {
            Option::Some(i) => {
                self.scopes.set(i, (scope, rule));
                proof {
                    assert(self@ =~= v0.update(i as int, (sm, rm)));
                    lemma_assoc_set_found(v0, sm, rm, i as int);
                }
            },
            Option::None => {
                self.scopes.push((scope, rule));
                proof {
                    assert(self@ =~= v0.push((sm, rm)));
                    lemma_assoc_set_absent(v0, sm, rm);
                }
            },
        }
    }

    /// Reads the plan a root configuration value declares.
    fn parse_value(v: &JsonValue) -> (r: Option<ScopeConfig>)
        ensures
            match r {
                Option::Some(c) => parse_config(v@) == Option::Some(c@),
                Option::None => parse_config(v@) is None,
            },
    {
        match v {
            JsonValue::Object(entries) => {
                proof {
                    assert(v@ == JsonModel::Object(json_model_entries(entries@)));
                }
                let sk: String = "scopes".to_owned();
                match crate::json::object_member_position(entries, &sk) {
                    Option::Some(i) => match &entries[i].1 {
                        JsonValue::Object(scope_entries) => {
                            proof {
                                assert(entries@[i as int].1@ == JsonModel::Object(
                                    json_model_entries(scope_entries@)));
                            }
                            Self::parse_scope_entries(scope_entries)
                        },
                        _ => Option::None,
                    },
                    Option::None => Option::None,
                }
            },
            _ => Option::None,
        }
    }

    /// Folds each declared rule of a `scopes` object into a plan.
    fn parse_scope_entries(scope_entries: &Vec<(String, JsonValue)>)
        -> (r: Option<ScopeConfig>)
        ensures
            match r {
                Option::Some(c) => parse_config_entries(
                    json_model_entries(scope_entries@),
                    Seq::empty(),
                ) == Option::Some(c@),
                Option::None => parse_config_entries(
                    json_model_entries(scope_entries@),
                    Seq::empty(),
                ) is None,
            },
    {
        let ghost em = json_model_entries(scope_entries@);
        proof {
            crate::json::lemma_json_model_entries(scope_entries@);
        }
        let n: usize = scope_entries.len();
        let mut out = ScopeConfig::empty();
        let mut k: usize = 0;
        proof {
            assert(em.skip(0) =~= em);
        }
        while k < n
            invariant
                0 <= k <= n,
                n == scope_entries@.len(),
                em == json_model_entries(scope_entries@),
                em.len() == n,
                parse_config_entries(em, Seq::empty())
                    == parse_config_entries(em.skip(k as int), out@),
            decreases n - k,
        {
            let ghost rest = em.skip(k as int);
            proof {
                crate::json::lemma_json_model_entries(scope_entries@);
                assert(rest[0] == em[k as int]);
                assert(rest.drop_first() =~= em.skip(k as int + 1));
                assert(em[k as int] == (scope_entries@[k as int].0@,
                    crate::json::json_model(scope_entries@[k as int].1)));
            }
            match ScopeConfiguration::parse(&scope_entries[k].1) {
                Option::Some(rule) => {
                    let scope = Scope::new(scope_entries[k].0.clone());
                    out.set(scope, rule);
                },
                Option::None => {
                    return Option::None;
                },
            }
            k = k + 1;
        }
        proof {
            assert(em.skip(n as int) =~= Seq::<(Seq<char>, JsonModel)>::empty());
        }
        Option::Some(out)
    }

    /// The plan declared at the schema root under `keyword`; an absent
    /// or unparseable configuration yields the empty plan, and the
    /// compilation carries on.
    pub fn create(keyword: &String, schema: &SchemaNode) -> (r: Self)
        ensures
            r@ == create_model(keyword@, schema@),
    {
        proof {
            assert(schema@.annotations == json_model_entries(schema.annotations@));
        }
        match crate::json::object_member_position(&schema.annotations, keyword) {
            Option::Some(i) => match Self::parse_value(&schema.annotations[i].1) {
                Option::Some(c) => c,
                Option::None => Self::empty(),
            },
            Option::None => Self::empty(),
        }
    }

    /// Appends a default rule for every index scope the plan does not
    /// cover yet; a declared rule is never overwritten.
    pub fn insert_implicit_mapping(&mut self, cache: &ScopeCache)
        ensures
            final(self)@ == add_implicit_defaults(old(self)@,
                idx_keys(cache.implicit_scopes@)),
    {
        let ghost keys = idx_keys(cache.implicit_scopes@);
        let n: usize = cache.implicit_scopes.len();
        let mut i: usize = 0;
        proof {
            assert(keys.skip(0) =~= keys);
            assert(keys.len() == n);
        }
        while i < n
            invariant
                0 <= i <= n,
                keys == idx_keys(cache.implicit_scopes@),
                keys.len() == n,
                n == cache.implicit_scopes@.len(),
                add_implicit_defaults(old(self)@, keys)
                    == add_implicit_defaults(self@, keys.skip(i as int)),
            decreases n - i,
        {
            let ghost rest = keys.skip(i as int);
            proof {
                assert(rest[0] == keys[i as int]);
                assert(rest.drop_first() =~= keys.skip(i as int + 1));
                assert(keys[i as int] == cache.implicit_scopes@[i as int].0);
            }
            let key: &Scope = cache.implicit_scopes.key_at(i);
            match self.position_of(key) {
                Option::Some(_) => {},
                Option::None => {
                    let name: String = key.as_str().to_owned();
                    let rule = ScopeConfiguration::Implicit(ImplicitScope {
                        collect: Collect::First,
                        session_data: SessionData {
                            id_token: Option::Some(name.clone()),
                            access_token: Option::Some(name),
                        },
                    });
                    let ghost v0 = self@;
                    self.scopes.push((key.clone(), rule));
                    proof {
                        assert(self@ =~= v0.push((keys[i as int],
                            default_rule(keys[i as int]))));
                    }
                },
            }
            i = i + 1;
        }
        proof {
            assert(keys.skip(n as int) =~= Seq::<Seq<char>>::empty());
        }
    }

    /// Appends a default rule and registers a one-token pointer for
    /// every first-level property the plan does not cover yet; no
    /// existing rule is overwritten.
    pub fn insert_direct_mapping(&mut self, schema: &SchemaNode, cache: &mut ScopeCache)
        ensures
            final(self)@ == add_direct_defaults(old(self)@,
                old(cache).implicit_scopes@, prop_keys(schema@)).0,
            final(cache).implicit_scopes@ == add_direct_defaults(old(self)@,
                old(cache).implicit_scopes@, prop_keys(schema@)).1,
    {
        let ghost pk = prop_keys(schema@);
        proof {
            crate::schema::lemma_node_model_entries(schema.properties@);
            assert(pk.skip(0) =~= pk);
        }
        let n: usize = schema.properties.len();
        let mut k: usize = 0;
        while k < n
            invariant
                0 <= k <= n,
                pk == prop_keys(schema@),
                pk.len() == n,
                n == schema.properties@.len(),
                add_direct_defaults(old(self)@, old(cache).implicit_scopes@, pk)
                    == add_direct_defaults(self@, cache.implicit_scopes@,
                        pk.skip(k as int)),
            decreases n - k,
        {
            let ghost rest = pk.skip(k as int);
            proof {
                crate::schema::lemma_node_model_entries(schema.properties@);
                assert(rest[0] == pk[k as int]);
                assert(rest.drop_first() =~= pk.skip(k as int + 1));
                assert(pk[k as int] == schema.properties@[k as int].0@);
            }
            let name: &String = &schema.properties[k].0;
            let scope = Scope::new(name.clone());
            match self.position_of(&scope) {
                Option::Some(_) => {},
                Option::None => {
                    let rule = ScopeConfiguration::Implicit(ImplicitScope {
                        collect: Collect::First,
                        session_data: SessionData {
                            id_token: Option::Some(name.clone()),
                            access_token: Option::Some(name.clone()),
                        },
                    });
                    let ghost v0 = self@;
                    self.scopes.push((scope.clone(), rule));
                    proof {
                        assert(self@ =~= v0.push((pk[k as int],
                            default_rule(pk[k as int]))));
                    }
                    let mut tokens: Vec<String> = Vec::new();
                    tokens.push(name.clone());
                    proof {
                        assert(tokens.deep_view() =~= seq![pk[k as int]]);
                    }
                    cache.implicit_scopes.insert(scope, crate::pointer::Pointer::from_tokens(tokens));
                },
            }
            k = k + 1;
        }
        proof {
            assert(pk.skip(n as int) =~= Seq::<Seq<char>>::empty());
        }
    }

    /// Resolves one scope of the plan against a trait document.
    pub fn resolve(&self, scope: &Scope, traits: &JsonValue, cache: &ScopeCache)
        -> (r: Option<Claim>)
        ensures
            assoc_lookup(self@, scope@) matches Option::Some(rule)
                ==> (r matches Option::Some(c)
                    && c.value@ == spec_resolve_rule(scope@, rule,
                        cache.implicit_scopes@, traits@).0
                    && c.session_data@ == rule.session()),
            assoc_lookup(self@, scope@) is None ==> r is None,
    {
        match self.find_scope(scope) {
            Option::Some(ScopeConfiguration::Implicit(im)) => Option::Some(Claim {
                value: im.resolve(scope, traits, cache),
                session_data: im.session_data.clone(),
            }),
            Option::Some(ScopeConfiguration::Explicit(ex)) => Option::Some(Claim {
                value: ex.resolve(traits),
                session_data: ex.session_data.clone(),
            }),
            Option::None => Option::None,
        }
    }

    /// Resolves every requested scope of the plan, in plan order, and
    /// gathers the claims of the two tokens. A scope absent from the
    /// requested set contributes nothing, whatever its rule.
    pub fn resolve_all(&self, traits: &JsonValue, cache: &ScopeCache,
        requested: &Vec<Scope>)
        -> (r: Claims)
        ensures
            r.id_token@ == JsonModel::Object(claims_model(self@,
                cache.implicit_scopes@, traits@, req_set(requested@)).0),
            r.access_token@ == JsonModel::Object(claims_model(self@,
                cache.implicit_scopes@, traits@, req_set(requested@)).1),
    {
        let ghost ix = cache.implicit_scopes@;
        let ghost doc = traits@;
        let ghost req = req_set(requested@);
        let n: usize = self.scopes.len();
        let mut id_map: Vec<(String, JsonValue)> = Vec::new();
        let mut at_map: Vec<(String, JsonValue)> = Vec::new();
        let mut k: usize = 0;
        proof {
            assert(self@.skip(0) =~= self@);
            assert(json_model_entries(id_map@)
                =~= Seq::<(Seq<char>, JsonModel)>::empty());
            assert(json_model_entries(at_map@)
                =~= Seq::<(Seq<char>, JsonModel)>::empty());
        }
        while k < n
            invariant
                0 <= k <= n,
                n == self.scopes@.len(),
                self@.len() == n,
                ix == cache.implicit_scopes@,
                doc == traits@,
                req == req_set(requested@),
                claims_model(self@, ix, doc, req) == resolve_all_model(
                    self@.skip(k as int), ix, doc, req,
                    json_model_entries(id_map@), json_model_entries(at_map@)),
            decreases n - k,
        {
            let ghost rest = self@.skip(k as int);
            proof {
                assert(rest[0] == self@[k as int]);
                assert(rest.drop_first() =~= self@.skip(k as int + 1));
                assert(self@[k as int] == (self.scopes@[k as int].0@,
                    self.scopes@[k as int].1@));
            }
            if contains_scope(requested, &self.scopes[k].0) {
                let ghost name = self@[k as int].0;
                let ghost rule = self@[k as int].1;
                let (value, session): (JsonValue, &SessionData) =
                    match &self.scopes[k].1 {
                    ScopeConfiguration::Implicit(im) => (
                        im.resolve(&self.scopes[k].0, traits, cache),
                        &im.session_data,
                    ),
                    ScopeConfiguration::Explicit(ex) => (
                        ex.resolve(traits),
                        &ex.session_data,
                    ),
                };
                proof {
                    assert(value@ == spec_resolve_rule(name, rule, ix, doc).0);
                    assert(session@ == rule.session());
                }
                match &session.id_token {
                    Option::Some(claim_name) => {
                        set_member(&mut id_map, claim_name.clone(), value.clone());
                    },
                    Option::None => {},
                }
                match &session.access_token {
                    Option::Some(claim_name) => {
                        set_member(&mut at_map, claim_name.clone(), value);
                    },
                    Option::None => {},
                }
            }
            k = k + 1;
        }
        proof {
            assert(self@.skip(n as int) =~= Seq::<(Seq<char>, RuleModel)>::empty());
        }
        Claims {
            id_token: JsonValue::Object(id_map),
            access_token: JsonValue::Object(at_map),
        }
    }

    /// Compiles the plan for a schema root: the declared rules, then the
    /// index defaults, then — if direct mapping is on — the
    /// direct-mapping defaults, which also extend the index.
    pub fn from_root(keyword: &String, schema: &SchemaNode, cache: &mut ScopeCache,
        direct_mapping: bool)
        -> (r: Self)
        ensures
            r@ == from_root_model(keyword@, schema@, old(cache).implicit_scopes@,
                direct_mapping).0,
            final(cache).implicit_scopes@ == from_root_model(keyword@, schema@,
                old(cache).implicit_scopes@, direct_mapping).1,
    {
        let mut this = Self::create(keyword, schema);
        this.insert_implicit_mapping(cache);
        if direct_mapping {
            this.insert_direct_mapping(schema, cache);
        }
        this
    }
}

/// What a collect policy makes of the values a scope's pointers
/// resolved to: First and Any take the first value, Last the last —
/// `null` when nothing resolved — and All gathers them all into an
/// array, empty when nothing resolved.
pub open spec fn spec_collect(policy: Collect, vs: Seq<JsonModel>) -> JsonModel {
    match policy {
        Collect::First => if vs.len() == 0 {
            JsonModel::Null
        } else {
            vs[0]
        },
        Collect::Any => if vs.len() == 0 {
            JsonModel::Null
        } else {
            vs[0]
        },
        Collect::Last => if vs.len() == 0 {
            JsonModel::Null
        } else {
            vs.last()
        },
        Collect::All => JsonModel::Array(vs),
    }
}

/// Collect-policy law: over surviving values `v1, v2, v3`, First and
/// Any yield `v1`, Last yields `v3`, All yields `[v1, v2, v3]`; over no
/// surviving values, First, Any and Last yield `null` and All the empty
/// array.
pub proof fn lemma_collect_policy(vs: Seq<JsonModel>)
    ensures
        vs.len() == 3 ==> spec_collect(Collect::First, vs) == vs[0]
            && spec_collect(Collect::Any, vs) == vs[0]
            && spec_collect(Collect::Last, vs) == vs[2]
            && spec_collect(Collect::All, vs) == JsonModel::Array(vs),
        vs.len() == 0 ==> spec_collect(Collect::First, vs) == JsonModel::Null
            && spec_collect(Collect::Any, vs) == JsonModel::Null
            && spec_collect(Collect::Last, vs) == JsonModel::Null
            && spec_collect(Collect::All, vs)
                == JsonModel::Array(Seq::<JsonModel>::empty()),
{
    if vs.len() == 0 {
        assert(vs =~= Seq::<JsonModel>::empty());
    }
}

/// The values a pointer list resolves to against a document, in list
/// order; a pointer that fails to resolve is discarded.
pub open spec fn resolved_values(ptrs: Seq<Seq<Seq<char>>>, doc: JsonModel)
    -> Seq<JsonModel>
    decreases ptrs.len(),
{
    if ptrs.len() == 0 {
        Seq::empty()
    } else {
        match resolve_model(ptrs[0], doc) {
            Option::Some(v) => seq![v] + resolved_values(ptrs.drop_first(), doc),
            Option::None => resolved_values(ptrs.drop_first(), doc),
        }
    }
}

/// What an implicit rule resolves to: the scope's pointers looked up in
/// the index — `null` if the index has no entry — each resolved against
/// the document, survivors combined by the collect policy.
pub open spec fn spec_resolve_implicit(
    policy: Collect,
    name: Seq<char>,
    ix: Seq<(Seq<char>, Seq<Seq<Seq<char>>>)>,
    doc: JsonModel,
) -> JsonModel {
    match idx_lookup(ix, name) {
        Option::Some(ptrs) => spec_collect(policy, resolved_values(ptrs, doc)),
        Option::None => JsonModel::Null,
    }
}

/// What a rule resolves to, and under which claim names it lands.
pub open spec fn spec_resolve_rule(
    name: Seq<char>,
    rule: RuleModel,
    ix: Seq<(Seq<char>, Seq<Seq<Seq<char>>>)>,
    doc: JsonModel,
) -> (JsonModel, SessionModel) {
    match rule {
        RuleModel::Implicit { collect, session } => (
            spec_resolve_implicit(collect, name, ix, doc),
            session,
        ),
        RuleModel::Explicit { mapping, session } => (
            resolve_mapping(mapping, doc),
            session,
        ),
    }
}

/// The set of scope names a request asks for.
pub open spec fn req_set(req: Seq<Scope>) -> Set<Seq<char>> {
    Set::new(|s: Seq<char>| exists|i: int| 0 <= i < req.len() && req[i]@ == s)
}

/// The two claim maps after executing the plan's entries in order,
/// starting from the given accumulators: a requested scope's value is
/// written under its rule's claim names, last write per name winning; a
/// scope absent from the requested set is skipped.
pub open spec fn resolve_all_model(
    plan: Seq<(Seq<char>, RuleModel)>,
    ix: Seq<(Seq<char>, Seq<Seq<Seq<char>>>)>,
    doc: JsonModel,
    req: Set<Seq<char>>,
    id_acc: Seq<(Seq<char>, JsonModel)>,
    at_acc: Seq<(Seq<char>, JsonModel)>,
) -> (Seq<(Seq<char>, JsonModel)>, Seq<(Seq<char>, JsonModel)>)
    decreases plan.len(),
{
    if plan.len() == 0 {
        (id_acc, at_acc)
    } else if req.contains(plan[0].0) {
        let vr = spec_resolve_rule(plan[0].0, plan[0].1, ix, doc);
        let id2 = match vr.1.id_token {
            Option::Some(cl) => assoc_set(id_acc, cl, vr.0),
            Option::None => id_acc,
        };
        let at2 = match vr.1.access_token {
            Option::Some(cl) => assoc_set(at_acc, cl, vr.0),
            Option::None => at_acc,
        };
        resolve_all_model(plan.drop_first(), ix, doc, req, id2, at2)
    } else {
        resolve_all_model(plan.drop_first(), ix, doc, req, id_acc, at_acc)
    }
}

/// The two claim maps a plan produces for a request.
pub open spec fn claims_model(
    plan: Seq<(Seq<char>, RuleModel)>,
    ix: Seq<(Seq<char>, Seq<Seq<Seq<char>>>)>,
    doc: JsonModel,
    req: Set<Seq<char>>,
) -> (Seq<(Seq<char>, JsonModel)>, Seq<(Seq<char>, JsonModel)>) {
    resolve_all_model(plan, ix, doc, req, Seq::empty(), Seq::empty())
}

/// Requested-scope filtering: a plan entry whose scope the request does
/// not name can be dropped without changing the claims; no claim is
/// ever emitted for it.
pub proof fn lemma_requested_filtering(
    plan: Seq<(Seq<char>, RuleModel)>,
    ix: Seq<(Seq<char>, Seq<Seq<Seq<char>>>)>,
    doc: JsonModel,
    req: Set<Seq<char>>,
    id_acc: Seq<(Seq<char>, JsonModel)>,
    at_acc: Seq<(Seq<char>, JsonModel)>,
    i: int,
)
    requires
        0 <= i < plan.len(),
        !req.contains(plan[i].0),
    ensures
        resolve_all_model(plan.remove(i), ix, doc, req, id_acc, at_acc)
            == resolve_all_model(plan, ix, doc, req, id_acc, at_acc),
    decreases plan.len(),
{
    if i == 0 {
        assert(plan.remove(0) =~= plan.drop_first());
    } else {
        assert(plan.remove(i)[0] == plan[0]);
        assert(plan.remove(i).drop_first() =~= plan.drop_first().remove(i - 1));
        assert(plan.drop_first()[i - 1] == plan[i]);
        if req.contains(plan[0].0) {
            let vr = spec_resolve_rule(plan[0].0, plan[0].1, ix, doc);
            let id2 = match vr.1.id_token {
                Option::Some(cl) => assoc_set(id_acc, cl, vr.0),
                Option::None => id_acc,
            };
            let at2 = match vr.1.access_token {
                Option::Some(cl) => assoc_set(at_acc, cl, vr.0),
                Option::None => at_acc,
            };
            lemma_requested_filtering(plan.drop_first(), ix, doc, req, id2, at2,
                i - 1);
        } else {
            lemma_requested_filtering(plan.drop_first(), ix, doc, req, id_acc,
                at_acc, i - 1);
        }
    }
}

/// An empty requested set yields empty claims, whatever the plan holds.
pub proof fn lemma_empty_request(
    plan: Seq<(Seq<char>, RuleModel)>,
    ix: Seq<(Seq<char>, Seq<Seq<Seq<char>>>)>,
    doc: JsonModel,
)
    ensures
        claims_model(plan, ix, doc, Set::empty())
            == (Seq::<(Seq<char>, JsonModel)>::empty(),
                Seq::<(Seq<char>, JsonModel)>::empty()),
{
    lemma_empty_request_from(plan, ix, doc, Seq::empty(), Seq::empty());
}

/// Helper for [`lemma_empty_request`]: with nothing requested the
/// accumulators come back unchanged.
proof fn lemma_empty_request_from(
    plan: Seq<(Seq<char>, RuleModel)>,
    ix: Seq<(Seq<char>, Seq<Seq<Seq<char>>>)>,
    doc: JsonModel,
    id_acc: Seq<(Seq<char>, JsonModel)>,
    at_acc: Seq<(Seq<char>, JsonModel)>,
)
    ensures
        resolve_all_model(plan, ix, doc, Set::empty(), id_acc, at_acc)
            == (id_acc, at_acc),
    decreases plan.len(),
{
    if plan.len() > 0 {
        assert(!Set::<Seq<char>>::empty().contains(plan[0].0));
        lemma_empty_request_from(plan.drop_first(), ix, doc, id_acc, at_acc);
    }
}

/// A resolved claim: the value and where it lands.
#[derive(Debug, PartialEq, Eq)]
pub struct Claim {
    pub value: JsonValue,
    pub session_data: SessionData,
}

/// The resolver's output: the claims of the id token and of the access
/// token, each a JSON object from claim name to value.
#[derive(Debug, PartialEq, Eq)]
pub struct Claims {
    pub id_token: JsonValue,
    pub access_token: JsonValue,
}

/// Whether the requested set names `scope`.
fn contains_scope(requested: &Vec<Scope>, scope: &Scope) -> (r: bool)
    ensures
        r == req_set(requested@).contains(scope@),
{
    let n: usize = requested.len();
    let mut i: usize = 0;
    while i < n
        invariant
            0 <= i <= n,
            n == requested@.len(),
            forall|j: int| 0 <= j < i ==> requested@[j]@ != scope@,
        decreases n - i,
    {
        if requested[i].same_as(scope) {
            proof {
                assert(requested@[i as int]@ == scope@);
            }
            return true;
        }
        i = i + 1;
    }
    proof {
        assert(!req_set(requested@).contains(scope@));
    }
    false
}

/// Sets `key` to `value` in a claim map: rewrites the first member of
/// that name in place, or appends one.
fn set_member(map: &mut Vec<(String, JsonValue)>, key: String, value: JsonValue)
    ensures
        json_model_entries(final(map)@) == assoc_set(
            json_model_entries(old(map)@), key@, value@),
{
    let ghost m0 = json_model_entries(map@);
    let ghost km = key@;
    let ghost vm = value@;
    proof {
        crate::json::lemma_json_model_entries(map@);
    }
    match crate::json::object_member_position(map, &key) {
        Option::Some(i) => {
            map.set(i, (key, value));
            proof {
                crate::json::lemma_json_model_entries(map@);
                assert(json_model_entries(map@) =~= m0.update(i as int, (km, vm)));
                lemma_assoc_set_found(m0, km, vm, i as int);
            }
        },
        Option::None => {
            proof {
                assert(forall|j: int| 0 <= j < m0.len() ==> m0[j].0 != km);
            }
            let ghost v0 = map@;
            map.push((key, value));
            proof {
                crate::json::lemma_json_model_entries(map@);
                crate::json::lemma_json_model_entries(v0);
                assert(json_model_entries(map@) =~= m0.push((km, vm)));
                lemma_assoc_set_absent(m0, km, vm);
            }
        },
    }
}

impl ImplicitScope {
    /// Resolves an implicit rule: the scope's pointers from the index,
    /// each resolved against the trait document, survivors combined by
    /// the collect policy; a scope the index does not know resolves to
    /// `null`.
    pub fn resolve(&self, scope: &Scope, traits: &JsonValue, cache: &ScopeCache)
        -> (r: JsonValue)
        ensures
            r@ == spec_resolve_implicit(self.collect, scope@,
                cache.implicit_scopes@, traits@),
    {
        match cache.implicit_scopes.get(scope) {
            Option::None => JsonValue::Null,
            Option::Some(pointers) => {
                let ghost pd = pointers.deep_view();
                let ghost doc = traits@;
                let n: usize = pointers.len();
                let mut values: Vec<JsonValue> = Vec::new();
                let mut j: usize = 0;
                proof {
                    assert(pd.skip(0) =~= pd);
                    assert(json_model_seq(values@) =~= Seq::<JsonModel>::empty());
                }
                while j < n
                    invariant
                        0 <= j <= n,
                        n == pointers@.len(),
                        pd == pointers.deep_view(),
                        pd.len() == n,
                        doc == traits@,
                        resolved_values(pd, doc) == json_model_seq(values@)
                            + resolved_values(pd.skip(j as int), doc),
                    decreases n - j,
                {
                    let ghost rest = pd.skip(j as int);
                    proof {
                        assert(rest[0] == pd[j as int]);
                        assert(rest.drop_first() =~= pd.skip(j as int + 1));
                        assert(pd[j as int] == pointers@[j as int]@);
                    }
                    match pointers[j].resolve(traits) {
                        Option::Some(v) => {
                            let ghost v0 = values@;
                            values.push(v.clone());
                            proof {
                                crate::json::lemma_json_model_seq(values@);
                                crate::json::lemma_json_model_seq(v0);
                                assert(json_model_seq(values@)
                                    =~= json_model_seq(v0) + seq![v@]);
                                assert(json_model_seq(v0) + (seq![v@]
                                    + resolved_values(pd.skip(j as int + 1), doc))
                                    =~= json_model_seq(values@)
                                        + resolved_values(pd.skip(j as int + 1),
                                            doc));
                            }
                        },
                        Option::None => {},
                    }
                    j = j + 1;
                }
                proof {
                    assert(pd.skip(n as int) =~= Seq::<Seq<Seq<char>>>::empty());
                    assert(json_model_seq(values@) + Seq::<JsonModel>::empty()
                        =~= json_model_seq(values@));
                }
                collect_values(self.collect, values)
            },
        }
    }
}

impl ExplicitScope {
    /// Resolves an explicit rule by walking its mapping against the
    /// trait document.
    pub fn resolve(&self, traits: &JsonValue) -> (r: JsonValue)
        ensures
            r@ == resolve_mapping(self.mapping@, traits@),
    {
        self.mapping.resolve(traits)
    }
}

/// Combines the values a scope's pointers resolved to, as the collect
/// policy directs.
pub fn collect_values(policy: Collect, values: Vec<JsonValue>) -> (r: JsonValue)
    ensures
        r@ == spec_collect(policy, json_model_seq(values@)),
{
    proof {
        crate::json::lemma_json_model_seq(values@);
    }
    let n: usize = values.len();
    match policy {
        Collect::First | Collect::Any => {
            if n == 0 {
                JsonValue::Null
            } else {
                values[0].clone()
            }
        },
        Collect::Last => {
            if n == 0 {
                JsonValue::Null
            } else {
                values[n - 1].clone()
            }
        },
        Collect::All => JsonValue::Array(values),
    }
}

} // verus!
