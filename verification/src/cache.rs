//! The implicit scope index and the compiled-schema store.
//!
//! Scanning a schema yields an index from scope name to the ordered list
//! of pointers annotated with that scope. The index is an
//! insertion-ordered association list: a scope keeps the position of its
//! first registration, and its pointers keep registration order. A
//! schema compiles once into an index and a plan, and the store keeps
//! that pair per schema identity for the life of the process.

use vstd::pervasive::VecAdditionalExecFns;
use vstd::prelude::*;

use crate::assoc::{assoc_lookup, assoc_set, lemma_assoc_set_absent,
    lemma_assoc_set_found};
use crate::config::{claims_model, from_root_model, req_set, Claims, ScopeConfig};
use crate::json::{member_lookup, JsonModel, JsonValue};
use crate::pointer::Pointer;
use crate::rules::{ImplicitScope, RuleModel};
use crate::schema::{parse_node, scan_node, SchemaError, SchemaNode};
use crate::scope::Scope;

verus! {

/// The pointer list registered for `s`, if any; the first entry of that
/// name decides.
pub open spec fn idx_lookup(v: Seq<(Seq<char>, Seq<Seq<Seq<char>>>)>, s: Seq<char>)
    -> Option<Seq<Seq<Seq<char>>>>
    decreases v.len(),
{
    if v.len() == 0 {
        Option::None
    } else if v[0].0 == s {
        Option::Some(v[0].1)
    } else {
        idx_lookup(v.drop_first(), s)
    }
}

/// The pointer list registered for `s`, or the empty list.
pub open spec fn lookup_list(v: Seq<(Seq<char>, Seq<Seq<Seq<char>>>)>, s: Seq<char>)
    -> Seq<Seq<Seq<char>>>
{
    match idx_lookup(v, s) {
        Option::Some(l) => l,
        Option::None => Seq::empty(),
    }
}

/// The scope names of an index, in order.
pub open spec fn idx_keys(v: Seq<(Seq<char>, Seq<Seq<Seq<char>>>)>) -> Seq<Seq<char>> {
    v.map_values(|e: (Seq<char>, Seq<Seq<Seq<char>>>)| e.0)
}

/// No scope name appears twice.
pub open spec fn idx_wf(v: Seq<(Seq<char>, Seq<Seq<Seq<char>>>)>) -> bool {
    forall|i: int, j: int| 0 <= i < j < v.len() ==> v[i].0 != v[j].0
}

/// The index with one more pointer registered for `s`: appended to the
/// first entry of that name, or as a new entry at the end.
pub open spec fn idx_insert(
    v: Seq<(Seq<char>, Seq<Seq<Seq<char>>>)>,
    s: Seq<char>,
    p: Seq<Seq<char>>,
) -> Seq<(Seq<char>, Seq<Seq<Seq<char>>>)>
    decreases v.len(),
{
    if v.len() == 0 {
        seq![(s, seq![p])]
    } else if v[0].0 == s {
        seq![(v[0].0, v[0].1.push(p))] + v.drop_first()
    } else {
        seq![v[0]] + idx_insert(v.drop_first(), s, p)
    }
}

/// The index with a list of pointers registered for `s`, in order.
pub open spec fn idx_extend(
    v: Seq<(Seq<char>, Seq<Seq<Seq<char>>>)>,
    s: Seq<char>,
    ps: Seq<Seq<Seq<char>>>,
) -> Seq<(Seq<char>, Seq<Seq<Seq<char>>>)>
    decreases ps.len(),
{
    if ps.len() == 0 {
        v
    } else {
        idx_extend(idx_insert(v, s, ps[0]), s, ps.drop_first())
    }
}

/// The union of two indices: every entry of `other` folded into `v`.
pub open spec fn idx_merge(
    v: Seq<(Seq<char>, Seq<Seq<Seq<char>>>)>,
    other: Seq<(Seq<char>, Seq<Seq<Seq<char>>>)>,
) -> Seq<(Seq<char>, Seq<Seq<Seq<char>>>)>
    decreases other.len(),
{
    if other.len() == 0 {
        v
    } else {
        idx_merge(idx_extend(v, other[0].0, other[0].1), other.drop_first())
    }
}

/// Registering a pointer for `s` appends it to `s`'s list and leaves
/// every other scope's list unchanged.
pub proof fn lemma_idx_insert_lookup(
    v: Seq<(Seq<char>, Seq<Seq<Seq<char>>>)>,
    s: Seq<char>,
    p: Seq<Seq<char>>,
    t: Seq<char>,
)
    ensures
        t == s ==> lookup_list(idx_insert(v, s, p), t) == lookup_list(v, t).push(p),
        t != s ==> lookup_list(idx_insert(v, s, p), t) == lookup_list(v, t),
    decreases v.len(),
{
    if v.len() == 0 {
        if t == s {
            assert(lookup_list(v, t).push(p) =~= seq![p]);
            assert(idx_insert(v, s, p)[0] == (s, seq![p]));
        } else {
            assert(idx_insert(v, s, p)[0].0 == s);
            assert(idx_lookup(idx_insert(v, s, p).drop_first(), t) is None) by {
                assert(idx_insert(v, s, p).drop_first() =~= v);
            }
        }
    } else if v[0].0 == s {
        let w = seq![(v[0].0, v[0].1.push(p))] + v.drop_first();
        assert(idx_insert(v, s, p) == w);
        if t == s {
            assert(w[0].0 == t);
        } else {
            assert(w[0].0 != t);
            assert(w.drop_first() =~= v.drop_first());
        }
    } else {
        let w = seq![v[0]] + idx_insert(v.drop_first(), s, p);
        assert(idx_insert(v, s, p) == w);
        assert(w[0] == v[0]);
        assert(w.drop_first() =~= idx_insert(v.drop_first(), s, p));
        lemma_idx_insert_lookup(v.drop_first(), s, p, t);
    }
}

/// Registering a pointer list for `s` appends it to `s`'s list and
/// leaves every other scope's list unchanged.
pub proof fn lemma_idx_extend_lookup(
    v: Seq<(Seq<char>, Seq<Seq<Seq<char>>>)>,
    s: Seq<char>,
    ps: Seq<Seq<Seq<char>>>,
    t: Seq<char>,
)
    ensures
        t == s ==> lookup_list(idx_extend(v, s, ps), t) == lookup_list(v, t) + ps,
        t != s ==> lookup_list(idx_extend(v, s, ps), t) == lookup_list(v, t),
    decreases ps.len(),
{
    if ps.len() == 0 {
        if t == s {
            assert(lookup_list(v, t) + ps =~= lookup_list(v, t));
        }
    } else {
        lemma_idx_insert_lookup(v, s, ps[0], t);
        lemma_idx_extend_lookup(idx_insert(v, s, ps[0]), s, ps.drop_first(), t);
        if t == s {
            assert(lookup_list(v, t).push(ps[0]) + ps.drop_first()
                =~= lookup_list(v, t) + ps);
        }
    }
}

/// The merge of two indices holds, for every scope, the left index's
/// pointers followed by the right index's pointers, none dropped. The
/// right index must not name a scope twice, as a scanned index never
/// does.
pub proof fn lemma_idx_merge_lookup(
    v: Seq<(Seq<char>, Seq<Seq<Seq<char>>>)>,
    other: Seq<(Seq<char>, Seq<Seq<Seq<char>>>)>,
    t: Seq<char>,
)
    requires
        idx_wf(other),
    ensures
        lookup_list(idx_merge(v, other), t) == lookup_list(v, t) + lookup_list(other, t),
    decreases other.len(),
{
    if other.len() == 0 {
        assert(lookup_list(v, t) + lookup_list(other, t) =~= lookup_list(v, t));
    } else {
        let s0 = other[0].0;
        let v2 = idx_extend(v, s0, other[0].1);
        assert(idx_wf(other.drop_first()));
        lemma_idx_extend_lookup(v, s0, other[0].1, t);
        lemma_idx_merge_lookup(v2, other.drop_first(), t);
        if t == s0 {
            assert(idx_lookup(other.drop_first(), t) is None) by {
                lemma_absent_key_lookup(other.drop_first(), t);
            }
            assert(lookup_list(other, t) == other[0].1);
            assert(lookup_list(v, t) + other[0].1 + Seq::<Seq<Seq<char>>>::empty()
                =~= lookup_list(v, t) + lookup_list(other, t));
        } else {
            assert(lookup_list(other.drop_first(), t) == lookup_list(other, t));
        }
    }
}

/// A scope that is not found is named by no entry.
pub proof fn lemma_lookup_none_no_key(
    v: Seq<(Seq<char>, Seq<Seq<Seq<char>>>)>,
    t: Seq<char>,
)
    requires
        idx_lookup(v, t) is None,
    ensures
        forall|i: int| 0 <= i < v.len() ==> v[i].0 != t,
    decreases v.len(),
{
    if v.len() > 0 {
        lemma_lookup_none_no_key(v.drop_first(), t);
        assert(forall|i: int| 1 <= i < v.len() ==> v[i] == v.drop_first()[i - 1]);
    }
}

/// What registering a pointer does to the scope names: a scope already
/// present keeps every name in place; a fresh scope's name is appended.
pub proof fn lemma_idx_insert_keys(
    v: Seq<(Seq<char>, Seq<Seq<Seq<char>>>)>,
    s: Seq<char>,
    p: Seq<Seq<char>>,
)
    ensures
        idx_lookup(v, s) is Some ==> idx_insert(v, s, p).len() == v.len(),
        idx_lookup(v, s) is None ==> idx_insert(v, s, p).len() == v.len() + 1
            && idx_insert(v, s, p)[v.len() as int].0 == s,
        forall|i: int| 0 <= i < v.len()
            ==> (#[trigger] idx_insert(v, s, p)[i]).0 == v[i].0,
    decreases v.len(),
{
    let w = idx_insert(v, s, p);
    if v.len() == 0 {
        assert(w == seq![(s, seq![p])]);
    } else if v[0].0 == s {
        assert(w == seq![(v[0].0, v[0].1.push(p))] + v.drop_first());
        assert(forall|i: int| 1 <= i < v.len() ==> v.drop_first()[i - 1] == v[i]);
    } else {
        lemma_idx_insert_keys(v.drop_first(), s, p);
        let inner = idx_insert(v.drop_first(), s, p);
        assert(w == seq![v[0]] + inner);
        assert(forall|i: int| 1 <= i < w.len() ==> w[i] == inner[i - 1]);
        assert(forall|i: int| 1 <= i < v.len() ==> v.drop_first()[i - 1] == v[i]);
    }
}

/// Registering a pointer keeps scope names unique.
pub proof fn lemma_idx_insert_wf(
    v: Seq<(Seq<char>, Seq<Seq<Seq<char>>>)>,
    s: Seq<char>,
    p: Seq<Seq<char>>,
)
    requires
        idx_wf(v),
    ensures
        idx_wf(idx_insert(v, s, p)),
{
    let w = idx_insert(v, s, p);
    lemma_idx_insert_keys(v, s, p);
    if idx_lookup(v, s) is Some {
        assert forall|i: int, j: int| 0 <= i < j < w.len() implies w[i].0 != w[j].0 by {
            assert(w[i].0 == v[i].0);
            assert(w[j].0 == v[j].0);
        }
    } else {
        lemma_lookup_none_no_key(v, s);
        assert forall|i: int, j: int| 0 <= i < j < w.len() implies w[i].0 != w[j].0 by {
            assert(w[i].0 == v[i].0);
            if j < v.len() {
                assert(w[j].0 == v[j].0);
            } else {
                assert(w[j].0 == s);
            }
        }
    }
}

/// Registering a pointer list keeps scope names unique.
pub proof fn lemma_idx_extend_wf(
    v: Seq<(Seq<char>, Seq<Seq<Seq<char>>>)>,
    s: Seq<char>,
    ps: Seq<Seq<Seq<char>>>,
)
    requires
        idx_wf(v),
    ensures
        idx_wf(idx_extend(v, s, ps)),
    decreases ps.len(),
{
    if ps.len() > 0 {
        lemma_idx_insert_wf(v, s, ps[0]);
        lemma_idx_extend_wf(idx_insert(v, s, ps[0]), s, ps.drop_first());
    }
}

/// Merging keeps scope names unique.
pub proof fn lemma_idx_merge_wf(
    v: Seq<(Seq<char>, Seq<Seq<Seq<char>>>)>,
    other: Seq<(Seq<char>, Seq<Seq<Seq<char>>>)>,
)
    requires
        idx_wf(v),
    ensures
        idx_wf(idx_merge(v, other)),
    decreases other.len(),
{
    if other.len() > 0 {
        lemma_idx_extend_wf(v, other[0].0, other[0].1);
        lemma_idx_merge_wf(idx_extend(v, other[0].0, other[0].1), other.drop_first());
    }
}

/// A scope that no entry names is not found.
pub proof fn lemma_absent_key_lookup(
    v: Seq<(Seq<char>, Seq<Seq<Seq<char>>>)>,
    t: Seq<char>,
)
    requires
        forall|i: int| 0 <= i < v.len() ==> v[i].0 != t,
    ensures
        idx_lookup(v, t) is None,
    decreases v.len(),
{
    if v.len() > 0 {
        lemma_absent_key_lookup(v.drop_first(), t);
    }
}

/// The index from scope name to the pointers annotated with it.
#[derive(Debug, PartialEq, Eq)]
pub struct ImplicitScopeCache(Vec<(Scope, Vec<Pointer>)>);

impl View for ImplicitScopeCache {
    type V = Seq<(Seq<char>, Seq<Seq<Seq<char>>>)>;

    closed spec fn view(&self) -> Seq<(Seq<char>, Seq<Seq<Seq<char>>>)> {
        Seq::new(self.0@.len(), |i: int| (self.0@[i].0@, self.0@[i].1.deep_view()))
    }
}

impl ImplicitScopeCache {
    /// The empty index.
    pub fn new() -> (r: Self)
        ensures
            r@ == Seq::<(Seq<char>, Seq<Seq<Seq<char>>>)>::empty(),
    {
        let r = ImplicitScopeCache(Vec::new());
        proof {
            assert(r@ =~= Seq::<(Seq<char>, Seq<Seq<Seq<char>>>)>::empty());
        }
        r
    }

    /// How many scopes the index holds.
    pub fn len(&self) -> (r: usize)
        ensures
            r == self@.len(),
    {
        self.0.len()
    }

    /// The scope at position `i`.
    pub fn key_at(&self, i: usize) -> (r: &Scope)
        requires
            i < self@.len(),
        ensures
            r@ == self@[i as int].0,
    {
        &self.0[i].0
    }

    /// The position of the first entry for `scope`, if any.
    fn position(&self, scope: &Scope) -> (r: Option<usize>)
        ensures
            match r {
                Option::Some(i) => 0 <= i < self@.len() && self@[i as int].0 == scope@
                    && idx_lookup(self@, scope@) == Option::Some(self@[i as int].1)
                    && (forall|j: int| 0 <= j < i ==> self@[j].0 != scope@),
                Option::None => idx_lookup(self@, scope@) is None
                    && (forall|j: int| 0 <= j < self@.len() ==> self@[j].0 != scope@),
            },
    {
        let n: usize = self.0.len();
        let mut i: usize = 0;
        proof {
            assert(self@.skip(0) =~= self@);
        }
        while i < n
            invariant
                0 <= i <= n,
                n == self@.len(),
                self@.len() == self.0@.len(),
                idx_lookup(self@, scope@) == idx_lookup(self@.skip(i as int), scope@),
                forall|j: int| 0 <= j < i ==> self@[j].0 != scope@,
            decreases n - i,
        {
            let ghost rest = self@.skip(i as int);
            proof {
                assert(rest[0] == self@[i as int]);
                assert(rest.drop_first() =~= self@.skip(i as int + 1));
            }
            if self.0[i].0.same_as(scope) {
                return Option::Some(i);
            }
            i = i + 1;
        }
        proof {
            assert(self@.skip(n as int)
                =~= Seq::<(Seq<char>, Seq<Seq<Seq<char>>>)>::empty());
        }
        Option::None
    }

    /// The pointers registered for `scope`, if any.
    pub fn get(&self, scope: &Scope) -> (r: Option<&Vec<Pointer>>)
        ensures
            match r {
                Option::Some(ps) => idx_lookup(self@, scope@)
                    == Option::Some(ps.deep_view()),
                Option::None => idx_lookup(self@, scope@) is None,
            },
    {
        match self.position(scope) {
            Option::Some(i) => Option::Some(&self.0[i].1),
            Option::None => Option::None,
        }
    }

    /// Registers one more pointer for `scope`.
    pub fn insert(&mut self, scope: Scope, pointer: Pointer)
        ensures
            final(self)@ == idx_insert(old(self)@, scope@, pointer@),
    {
        let ghost v0 = self@;
        let ghost vec0 = self.0@;
        let ghost sm = scope@;
        let ghost pm = pointer@;
        match self.position(&scope) {
            Option::Some(i) => {
                let mut entry = self.0.remove(i);
                entry.1.push(pointer);
                self.0.insert(i, entry);
                proof {
                    assert(self.0@ =~= vec0.update(i as int, (vec0[i as int].0,
                        self.0@[i as int].1)));
                    assert(self.0@[i as int].1.deep_view()
                        =~= vec0[i as int].1.deep_view().push(pm));
                    assert(self@ =~= v0.update(i as int, (sm, v0[i as int].1.push(pm))));
                    lemma_found_insert(v0, sm, pm, i as int);
                }
            },
            Option::None => {
                let mut ps: Vec<Pointer> = Vec::new();
                ps.push(pointer);
                proof {
                    assert(ps.deep_view() =~= seq![pm]);
                }
                self.0.push((scope, ps));
                proof {
                    assert(self@ =~= v0.push((sm, seq![pm])));
                    lemma_absent_insert(v0, sm, pm);
                }
            },
        }
    }

    /// The scopes the index holds, in order.
    pub fn keys(&self) -> (r: Vec<Scope>)
        ensures
            r.deep_view() == idx_keys(self@),
    {
        let n: usize = self.0.len();
        let mut out: Vec<Scope> = Vec::new();
        let mut i: usize = 0;
        while i < n
            invariant
                0 <= i <= n,
                n == self@.len(),
                self@.len() == self.0@.len(),
                out@.len() == i,
                forall|j: int| 0 <= j < i ==> out@[j]@ == self@[j].0,
            decreases n - i,
        {
            out.push(self.0[i].0.clone());
            i = i + 1;
        }
        proof {
            assert(out.deep_view() =~= idx_keys(self@));
        }
        out
    }

    /// Folds every entry of `other` into this index: for each scope, the
    /// pointers of this index come first, then `other`'s, none dropped.
    pub fn merge(&mut self, other: Self)
        ensures
            final(self)@ == idx_merge(old(self)@, other@),
    {
        let ghost om = other@;
        let entries: &Vec<(Scope, Vec<Pointer>)> = &other.0;
        let n: usize = entries.len();
        let mut k: usize = 0;
        proof {
            assert(om.skip(0) =~= om);
        }
        while k < n
            invariant
                0 <= k <= n,
                n == entries@.len(),
                om.len() == n,
                om == Seq::new(entries@.len(), |i: int| (entries@[i].0@,
                    entries@[i].1.deep_view())),
                idx_merge(old(self)@, om) == idx_merge(self@, om.skip(k as int)),
            decreases n - k,
        {
            let ghost rest = om.skip(k as int);
            proof {
                assert(rest[0] == om[k as int]);
                assert(rest.drop_first() =~= om.skip(k as int + 1));
            }
            let ghost sm = om[k as int].0;
            let ghost ps = om[k as int].1;
            let m: usize = entries[k].1.len();
            let mut j: usize = 0;
            proof {
                assert(ps.skip(0) =~= ps);
            }
            while j < m
                invariant
                    0 <= j <= m,
                    0 <= k < n,
                    n == entries@.len(),
                    m == entries@[k as int].1@.len(),
                    sm == entries@[k as int].0@,
                    ps == entries@[k as int].1.deep_view(),
                    ps.len() == m,
                    idx_merge(old(self)@, om) == idx_merge(idx_extend(self@, sm,
                        ps.skip(j as int)), om.skip(k as int + 1)),
                decreases m - j,
            {
                let ghost prest = ps.skip(j as int);
                proof {
                    assert(prest[0] == ps[j as int]);
                    assert(prest.drop_first() =~= ps.skip(j as int + 1));
                    assert(ps[j as int] == entries@[k as int].1@[j as int]@);
                }
                let sc = entries[k].0.clone();
                let pt = entries[k].1[j].clone();
                self.insert(sc, pt);
                j = j + 1;
            }
            proof {
                assert(ps.skip(m as int) =~= Seq::<Seq<Seq<char>>>::empty());
                assert(idx_extend(self@, sm, ps.skip(m as int)) == self@);
            }
            k = k + 1;
        }
        proof {
            assert(om.skip(n as int)
                =~= Seq::<(Seq<char>, Seq<Seq<Seq<char>>>)>::empty());
        }
    }
}

/// What compiling a raw identity schema yields: the subschema at
/// `properties.traits` read as a node tree, scanned into an index from
/// the root path, and the plan compiled from its root; a document
/// without that shape is malformed.
pub open spec fn compile_model(kw: Seq<char>, root: JsonModel, direct_mapping: bool)
    -> Option<(Seq<(Seq<char>, Seq<Seq<Seq<char>>>)>, Seq<(Seq<char>, RuleModel)>)>
{
    match root {
        JsonModel::Object(entries) => match member_lookup(entries, "properties"@) {
            Option::Some(JsonModel::Object(inner)) => match member_lookup(inner,
                "traits"@) {
                Option::Some(tv) => match parse_node(tv) {
                    Option::Some(node) => {
                        let ix0 = scan_node(kw, node, Seq::empty());
                        let pair = from_root_model(kw, node, ix0, direct_mapping);
                        Option::Some((pair.1, pair.0))
                    },
                    Option::None => Option::None,
                },
                Option::None => Option::None,
            },
            _ => Option::None,
        },
        _ => Option::None,
    }
}

/// A compiled schema: the scanned index and the compiled plan, built
/// once and read-only thereafter.
#[derive(Debug, PartialEq, Eq)]
pub struct Schema {
    cache: ScopeCache,
    config: ScopeConfig,
}

impl View for Schema {
    type V = (Seq<(Seq<char>, Seq<Seq<Seq<char>>>)>, Seq<(Seq<char>, RuleModel)>);

    closed spec fn view(&self) -> (Seq<(Seq<char>, Seq<Seq<Seq<char>>>)>,
        Seq<(Seq<char>, RuleModel)>)
    {
        (self.cache.implicit_scopes@, self.config@)
    }
}

impl Schema {
    /// A compiled schema from its two artifacts.
    pub fn new(cache: ScopeCache, config: ScopeConfig) -> (r: Self)
        ensures
            r@ == (cache.implicit_scopes@, config@),
    {
        Schema { cache, config }
    }

    /// The compiled plan.
    pub fn config(&self) -> (r: &ScopeConfig)
        ensures
            r@ == self@.1,
    {
        &self.config
    }

    /// The scanned artifacts.
    pub fn scope_cache(&self) -> (r: &ScopeCache)
        ensures
            r.implicit_scopes@ == self@.0,
    {
        &self.cache
    }

    /// Resolves the requested scopes against a trait document under
    /// this schema's plan and index.
    pub fn resolve(&self, traits: &JsonValue, requested: &Vec<Scope>) -> (r: Claims)
        ensures
            r.id_token@ == JsonModel::Object(claims_model(self@.1, self@.0,
                traits@, req_set(requested@)).0),
            r.access_token@ == JsonModel::Object(claims_model(self@.1, self@.0,
                traits@, req_set(requested@)).1),
    {
        self.config.resolve_all(traits, &self.cache, requested)
    }

    /// Compiles a raw identity schema document: reads the trait
    /// subschema at `properties.traits`, scans it for implicit scopes,
    /// and compiles the plan.
    pub fn compile(keyword: &String, root: &JsonValue, direct_mapping: bool)
        -> (r: Result<Schema, SchemaError>)
        ensures
            match r {
                Result::Ok(s) => compile_model(keyword@, root@, direct_mapping)
                    == Option::Some(s@),
                Result::Err(e) => compile_model(keyword@, root@, direct_mapping)
                    is None && e == SchemaError::IdentitySchemaMalformed,
            },
    {
        let entries = match root {
            JsonValue::Object(entries) => entries,
            _ => {
                return Result::Err(SchemaError::IdentitySchemaMalformed);
            },
        };
        proof {
            assert(root@ == JsonModel::Object(crate::json::json_model_entries(
                entries@)));
        }
        let pk: String = "properties".to_owned();
        let inner = match crate::json::object_get(entries, &pk) {
            Option::Some(JsonValue::Object(inner)) => inner,
            Option::Some(_) => {
                return Result::Err(SchemaError::IdentitySchemaMalformed);
            },
            Option::None => {
                return Result::Err(SchemaError::IdentitySchemaMalformed);
            },
        };
        let tk: String = "traits".to_owned();
        let traits_schema = match crate::json::object_get(inner, &tk) {
            Option::Some(tv) => tv,
            Option::None => {
                return Result::Err(SchemaError::IdentitySchemaMalformed);
            },
        };
        let node = match SchemaNode::parse(traits_schema) {
            Result::Ok(node) => node,
            Result::Err(e) => {
                return Result::Err(e);
            },
        };
        let path: Vec<String> = Vec::new();
        proof {
            assert(path.deep_view() =~= Seq::<Seq<char>>::empty());
        }
        let index = ImplicitScope::find(keyword, &node, path);
        let mut cache = ScopeCache::new(index);
        let config = ScopeConfig::from_root(keyword, &node, &mut cache,
            direct_mapping);
        Result::Ok(Schema { cache, config })
    }
}

/// The process-lifetime store of compiled schemas, keyed by schema
/// identity. Entries are never evicted; writing an identity again
/// replaces its entry, so the last insertion wins.
#[derive(Debug)]
pub struct SchemaCache {
    keyword: String,
    direct_mapping: bool,
    data: Vec<(SchemaId, Schema)>,
}

impl SchemaCache {
    /// The annotation keyword this cache compiles schemas with.
    pub closed spec fn spec_keyword(&self) -> Seq<char> {
        self.keyword@
    }

    /// Whether this cache compiles schemas with direct mapping on.
    pub closed spec fn spec_direct_mapping(&self) -> bool {
        self.direct_mapping
    }

    /// The stored entries: schema identity to compiled artifacts.
    pub closed spec fn entries(&self) -> Seq<(Seq<char>, (Seq<(Seq<char>,
        Seq<Seq<Seq<char>>>)>, Seq<(Seq<char>, RuleModel)>))>
    {
        Seq::new(self.data@.len(), |i: int| (self.data@[i].0@, self.data@[i].1@))
    }

    /// An empty cache for the given keyword and direct-mapping choice.
    pub fn new(keyword: String, direct_mapping: bool) -> (r: Self)
        ensures
            r.spec_keyword() == keyword@,
            r.spec_direct_mapping() == direct_mapping,
            r.entries() == Seq::<(Seq<char>, (Seq<(Seq<char>, Seq<Seq<Seq<char>>>)>,
                Seq<(Seq<char>, RuleModel)>))>::empty(),
    {
        let r = SchemaCache { keyword, direct_mapping, data: Vec::new() };
        proof {
            assert(r.entries() =~= Seq::<(Seq<char>, (Seq<(Seq<char>,
                Seq<Seq<Seq<char>>>)>, Seq<(Seq<char>, RuleModel)>))>::empty());
        }
        r
    }

    /// The annotation keyword this cache compiles schemas with.
    pub fn keyword(&self) -> (r: &String)
        ensures
            r@ == self.spec_keyword(),
    {
        &self.keyword
    }

    /// Whether this cache compiles schemas with direct mapping on.
    pub fn direct_mapping(&self) -> (r: bool)
        ensures
            r == self.spec_direct_mapping(),
    {
        self.direct_mapping
    }

    /// The position of the entry for `id`, if any.
    fn position(&self, id: &SchemaId) -> (r: Option<usize>)
        ensures
            match r {
                Option::Some(i) => 0 <= i < self.entries().len()
                    && self.entries()[i as int].0 == id@
                    && assoc_lookup(self.entries(), id@)
                        == Option::Some(self.entries()[i as int].1)
                    && (forall|j: int| 0 <= j < i ==> self.entries()[j].0 != id@),
                Option::None => assoc_lookup(self.entries(), id@) is None
                    && (forall|j: int| 0 <= j < self.entries().len()
                        ==> self.entries()[j].0 != id@),
            },
    {
        let n: usize = self.data.len();
        let mut i: usize = 0;
        proof {
            assert(self.entries().skip(0) =~= self.entries());
        }
        while i < n
            invariant
                0 <= i <= n,
                n == self.data@.len(),
                self.entries().len() == n,
                assoc_lookup(self.entries(), id@)
                    == assoc_lookup(self.entries().skip(i as int), id@),
                forall|j: int| 0 <= j < i ==> self.entries()[j].0 != id@,
            decreases n - i,
        {
            let ghost rest = self.entries().skip(i as int);
            proof {
                assert(rest[0] == self.entries()[i as int]);
                assert(rest.drop_first() =~= self.entries().skip(i as int + 1));
            }
            if self.data[i].0.same_as(id) {
                return Option::Some(i);
            }
            i = i + 1;
        }
        proof {
            assert(self.entries().skip(n as int) =~= Seq::<(Seq<char>, (Seq<(Seq<
                char>, Seq<Seq<Seq<char>>>)>, Seq<(Seq<char>, RuleModel)>))>::empty());
        }
        Option::None
    }

    /// Whether the cache holds a compiled schema for `id`.
    pub fn contains_key(&self, id: &SchemaId) -> (r: bool)
        ensures
            r == (assoc_lookup(self.entries(), id@) is Some),
    {
        match self.position(id) {
            Option::Some(_) => true,
            Option::None => false,
        }
    }

    /// The compiled schema stored for `id`, if any.
    pub fn get(&self, id: &SchemaId) -> (r: Option<&Schema>)
        ensures
            match r {
                Option::Some(s) => assoc_lookup(self.entries(), id@)
                    == Option::Some(s@),
                Option::None => assoc_lookup(self.entries(), id@) is None,
            },
    {
        match self.position(id) {
            Option::Some(i) => Option::Some(&self.data[i].1),
            Option::None => Option::None,
        }
    }

    /// The compiled schema stored for `id`, which must be present.
    pub fn get_or_panic(&self, id: &SchemaId) -> (r: &Schema)
        requires
            assoc_lookup(self.entries(), id@) is Some,
        ensures
            assoc_lookup(self.entries(), id@) == Option::Some(r@),
    {
        match self.position(id) {
            Option::Some(i) => &self.data[i].1,
            Option::None => vstd::pervasive::unreached(),
        }
    }

    /// Stores the compiled schema for `id`; an entry written again is
    /// replaced in place, the last insertion winning.
    pub fn insert(&mut self, id: SchemaId, schema: Schema)
        ensures
            final(self).entries() == assoc_set(old(self).entries(), id@, schema@),
            final(self).spec_keyword() == old(self).spec_keyword(),
            final(self).spec_direct_mapping() == old(self).spec_direct_mapping(),
    {
        let ghost v0 = self.entries();
        let ghost km = id@;
        let ghost sm = schema@;
        match self.position(&id) {
            Option::Some(i) => {
                self.data.set(i, (id, schema));
                proof {
                    assert(self.entries() =~= v0.update(i as int, (km, sm)));
                    lemma_assoc_set_found(v0, km, sm, i as int);
                }
            },
            Option::None => {
                self.data.push((id, schema));
                proof {
                    assert(self.entries() =~= v0.push((km, sm)));
                    lemma_assoc_set_absent(v0, km, sm);
                }
            },
        }
    }
}

/// Inserting for a scope found at position `i` updates that entry in
/// place.
proof fn lemma_found_insert(
    v: Seq<(Seq<char>, Seq<Seq<Seq<char>>>)>,
    s: Seq<char>,
    p: Seq<Seq<char>>,
    i: int,
)
    requires
        0 <= i < v.len(),
        v[i].0 == s,
        forall|j: int| 0 <= j < i ==> v[j].0 != s,
    ensures
        idx_insert(v, s, p) == v.update(i, (s, v[i].1.push(p))),
    decreases i,
{
    if i == 0 {
        assert(idx_insert(v, s, p) == seq![(v[0].0, v[0].1.push(p))] + v.drop_first());
        assert(seq![(v[0].0, v[0].1.push(p))] + v.drop_first()
            =~= v.update(0, (s, v[0].1.push(p))));
    } else {
        assert(v[0].0 != s);
        assert(v.drop_first()[i - 1] == v[i]);
        assert(forall|j: int| 0 <= j < i - 1 ==> v.drop_first()[j] == v[j + 1]);
        lemma_found_insert(v.drop_first(), s, p, i - 1);
        assert(seq![v[0]] + v.drop_first().update(i - 1, (s, v[i].1.push(p)))
            =~= v.update(i, (s, v[i].1.push(p))));
    }
}

/// The scanned artifacts a resolution reads: today, the implicit scope
/// index.
#[derive(Debug, PartialEq, Eq)]
pub struct ScopeCache {
    pub implicit_scopes: ImplicitScopeCache,
}

impl ScopeCache {
    /// A cache around a scanned index.
    pub fn new(implicit_scopes: ImplicitScopeCache) -> (r: Self)
        ensures
            r.implicit_scopes@ == implicit_scopes@,
    {
        ScopeCache { implicit_scopes }
    }
}

/// The opaque identity of a schema; equality is by string value.
#[derive(Debug, PartialEq, Eq, Hash)]
pub struct SchemaId(String);

impl View for SchemaId {
    type V = Seq<char>;

    closed spec fn view(&self) -> Seq<char> {
        self.0@
    }
}

impl Clone for SchemaId {
    /// A copy naming the same schema.
    fn clone(&self) -> (r: Self)
        ensures
            r@ == self@,
    {
        SchemaId(self.0.clone())
    }
}

impl SchemaId {
    /// The identity named by `value`.
    pub fn new(value: String) -> (r: Self)
        ensures
            r@ == value@,
    {
        SchemaId(value)
    }

    /// The identity's name.
    pub fn as_str(&self) -> (r: &str)
        ensures
            r@ == self@,
    {
        self.0.as_str()
    }

    /// Whether two identities name the same schema.
    pub fn same_as(&self, other: &SchemaId) -> (r: bool)
        ensures
            r == (self@ == other@),
    {
        self.0 == other.0
    }
}

/// Inserting for a scope no entry names appends a new entry.
proof fn lemma_absent_insert(
    v: Seq<(Seq<char>, Seq<Seq<Seq<char>>>)>,
    s: Seq<char>,
    p: Seq<Seq<char>>,
)
    requires
        forall|j: int| 0 <= j < v.len() ==> v[j].0 != s,
    ensures
        idx_insert(v, s, p) == v.push((s, seq![p])),
    decreases v.len(),
{
    if v.len() == 0 {
        assert(idx_insert(v, s, p) =~= v.push((s, seq![p])));
    } else {
        lemma_absent_insert(v.drop_first(), s, p);
        assert(seq![v[0]] + v.drop_first().push((s, seq![p]))
            =~= v.push((s, seq![p])));
    }
}

} // verus!
