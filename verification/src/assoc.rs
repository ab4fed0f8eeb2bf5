//! Insertion-ordered association lists, at the specification level.
//!
//! The scope plan, the claim maps and the schema cache all behave as
//! maps that keep insertion order: a lookup reads the first entry of a
//! name, and setting a name rewrites that entry in place or appends a
//! new one at the end.

use vstd::prelude::*;

verus! {

/// The value of the first entry named `k`, if any.
pub open spec fn assoc_lookup<V>(es: Seq<(Seq<char>, V)>, k: Seq<char>) -> Option<V>
    decreases es.len(),
{
    if es.len() == 0 {
        Option::None
    } else if es[0].0 == k {
        Option::Some(es[0].1)
    } else {
        assoc_lookup(es.drop_first(), k)
    }
}

/// The list with `k` set to `v`: the first entry named `k` rewritten in
/// place, or a new entry appended.
pub open spec fn assoc_set<V>(es: Seq<(Seq<char>, V)>, k: Seq<char>, v: V)
    -> Seq<(Seq<char>, V)>
    decreases es.len(),
{
    if es.len() == 0 {
        seq![(k, v)]
    } else if es[0].0 == k {
        seq![(k, v)] + es.drop_first()
    } else {
        seq![es[0]] + assoc_set(es.drop_first(), k, v)
    }
}

/// Setting a name found at position `i` rewrites that entry in place.
pub proof fn lemma_assoc_set_found<V>(es: Seq<(Seq<char>, V)>, k: Seq<char>, v: V, i: int)
    requires
        0 <= i < es.len(),
        es[i].0 == k,
        forall|j: int| 0 <= j < i ==> es[j].0 != k,
    ensures
        assoc_set(es, k, v) == es.update(i, (k, v)),
    decreases i,
{
    if i == 0 {
        assert(seq![(k, v)] + es.drop_first() =~= es.update(0, (k, v)));
    } else {
        assert(es[0].0 != k);
        assert(es.drop_first()[i - 1] == es[i]);
        assert(forall|j: int| 0 <= j < i - 1 ==> es.drop_first()[j] == es[j + 1]);
        lemma_assoc_set_found(es.drop_first(), k, v, i - 1);
        assert(seq![es[0]] + es.drop_first().update(i - 1, (k, v))
            =~= es.update(i, (k, v)));
    }
}

/// Setting a name no entry holds appends a new entry.
pub proof fn lemma_assoc_set_absent<V>(es: Seq<(Seq<char>, V)>, k: Seq<char>, v: V)
    requires
        forall|j: int| 0 <= j < es.len() ==> es[j].0 != k,
    ensures
        assoc_set(es, k, v) == es.push((k, v)),
    decreases es.len(),
{
    if es.len() == 0 {
        assert(assoc_set(es, k, v) =~= es.push((k, v)));
    } else {
        lemma_assoc_set_absent(es.drop_first(), k, v);
        assert(seq![es[0]] + es.drop_first().push((k, v)) =~= es.push((k, v)));
    }
}

/// What an appended entry does to a lookup: nothing where a name was
/// already present, and it serves names not seen before.
pub proof fn lemma_assoc_lookup_push<V>(es: Seq<(Seq<char>, V)>, e: (Seq<char>, V),
    t: Seq<char>)
    ensures
        assoc_lookup(es, t) is Some ==> assoc_lookup(es.push(e), t)
            == assoc_lookup(es, t),
        assoc_lookup(es, t) is None && e.0 == t ==> assoc_lookup(es.push(e), t)
            == Option::Some(e.1),
        assoc_lookup(es, t) is None && e.0 != t ==> assoc_lookup(es.push(e), t)
            is None,
    decreases es.len(),
{
    if es.len() == 0 {
        assert(es.push(e)[0] == e);
        assert(es.push(e).drop_first() =~= Seq::<(Seq<char>, V)>::empty());
        assert(assoc_lookup(Seq::<(Seq<char>, V)>::empty(), t) is None);
        assert(es.push(e).len() == 1);
    } else {
        assert(es.push(e)[0] == es[0]);
        assert(es.push(e).drop_first() =~= es.drop_first().push(e));
        lemma_assoc_lookup_push(es.drop_first(), e, t);
    }
}

} // verus!
