//! The meaning of alias resolution: a fixed point over a map from names
//! to primitive type names, and its link to type tables.

use vstd::prelude::*;
use crate::internal::{Type, find_type, resolve, type_label, lemma_find_type};

verus! {

/// The names of the primitive types an alias can stand for.
pub open spec fn prim(n: Seq<char>) -> bool {
    n == ":int"@ || n == ":string"@ || n == ":listy"@
}

/// The index of the first alias named `n` in `m`.
pub open spec fn alias_find(m: Seq<(Seq<char>, Seq<char>)>, n: Seq<char>) -> Option<int>
    decreases m.len(),
{
    if m.len() == 0 {
        None
    } else {
        match alias_find(m.drop_last(), n) {
            Some(i) => Some(i),
            None => if m.last().0 == n {
                Some(m.len() - 1)
            } else {
                None
            },
        }
    }
}

/// The primitive type name that `n` stands for, given the aliases `m`.
pub open spec fn alookup(m: Seq<(Seq<char>, Seq<char>)>, n: Seq<char>) -> Option<Seq<char>> {
    if prim(n) {
        Some(n)
    } else {
        match alias_find(m, n) {
            Some(k) => Some(m[k].1),
            None => None,
        }
    }
}

/// One pass over the first `p` pending aliases: an alias whose new name is
/// known must stand for its old name (else the pass fails); one whose old
/// name is known is added; the others wait.
pub open spec fn pass(
    m: Seq<(Seq<char>, Seq<char>)>,
    pairs: Seq<(Seq<char>, Seq<char>)>,
    pending: Seq<int>,
    p: int,
) -> Option<Seq<(Seq<char>, Seq<char>)>>
    decreases p,
{
    if p <= 0 || p > pending.len() {
        Some(m)
    } else {
        match pass(m, pairs, pending, p - 1) {
            None => None,
            Some(m1) => {
                let a = pairs[pending[p - 1]];
                match alookup(m1, a.1) {
                    Some(t) => if t != a.0 {
                        None
                    } else {
                        Some(m1)
                    },
                    None => match alookup(m1, a.0) {
                        Some(t) => Some(m1.push((a.1, t))),
                        None => Some(m1),
                    },
                }
            },
        }
    }
}

/// The first `q` pending aliases whose new names are still unknown.
pub open spec fn waiting(m: Seq<(Seq<char>, Seq<char>)>, pairs: Seq<(Seq<char>, Seq<char>)>, pending: Seq<int>, q: int) -> Seq<int>
    decreases q,
{
    if q <= 0 || q > pending.len() {
        Seq::empty()
    } else if alookup(m, pairs[pending[q - 1]].1) is None {
        waiting(m, pairs, pending, q - 1).push(pending[q - 1])
    } else {
        waiting(m, pairs, pending, q - 1)
    }
}

/// Passes until nothing waits (the result) or a pass adds nothing or
/// fails (`None`).
pub open spec fn fixpoint(
    m: Seq<(Seq<char>, Seq<char>)>,
    pairs: Seq<(Seq<char>, Seq<char>)>,
    pending: Seq<int>,
    fuel: nat,
) -> Option<Seq<(Seq<char>, Seq<char>)>>
    decreases fuel,
{
    if pending.len() == 0 {
        Some(m)
    } else if fuel == 0 {
        None
    } else {
        match pass(m, pairs, pending, pending.len() as int) {
            None => None,
            Some(m2) => {
                let rest = waiting(m2, pairs, pending, pending.len() as int);
                if rest.len() == pending.len() {
                    None
                } else {
                    fixpoint(m2, pairs, rest, (fuel - 1) as nat)
                }
            },
        }
    }
}

pub open spec fn all_indices(n: int) -> Seq<int> {
    Seq::new(n as nat, |i: int| i)
}

/// The aliases that resolution makes of `pairs` (old, new), or `None`
/// where an alias chain does not end in a primitive type or a new name is
/// bound to two types.
pub open spec fn resolution(pairs: Seq<(Seq<char>, Seq<char>)>) -> Option<Seq<(Seq<char>, Seq<char>)>> {
    fixpoint(Seq::empty(), pairs, all_indices(pairs.len() as int), pairs.len() + 1)
}

pub open spec fn resolvable(pairs: Seq<(Seq<char>, Seq<char>)>) -> bool {
    resolution(pairs) is Some
}

pub open spec fn prim_index(t: Seq<char>) -> int {
    if t == ":int"@ {
        0
    } else if t == ":string"@ {
        1
    } else {
        2
    }
}

/// A table of the three primitive types followed by the aliases `m`, each
/// to a primitive type name.
pub open spec fn flat(ts: Seq<Type>, m: Seq<(Seq<char>, Seq<char>)>) -> bool {
    &&& ts.len() == 3 + m.len()
    &&& ts[0] is Number && ts[1] is Str && ts[2] is Listy
    &&& forall|k: int| 0 <= k < m.len() ==> (#[trigger] ts[3 + k]) is TypeDef
        && ts[3 + k]->TypeDef_0@ == m[k].0 && ts[3 + k]->TypeDef_1@ == m[k].1
    &&& forall|k: int| 0 <= k < m.len() ==> prim(#[trigger] m[k].1) && !prim(m[k].0)
}

proof fn lemma_alias_find(m: Seq<(Seq<char>, Seq<char>)>, n: Seq<char>)
    ensures
        alias_find(m, n) matches Some(i) ==> 0 <= i < m.len() && m[i].0 == n
            && forall|k: int| 0 <= k < i ==> (#[trigger] m[k]).0 != n,
        alias_find(m, n) is None ==> forall|k: int| 0 <= k < m.len() ==> (#[trigger] m[k]).0 != n,
    decreases m.len(),
{
    if m.len() > 0 {
        lemma_alias_find(m.drop_last(), n);
        assert(forall|k: int| 0 <= k < m.len() - 1 ==> m.drop_last()[k] == m[k]);
    }
}

proof fn lemma_prim_resolve(ts: Seq<Type>, m: Seq<(Seq<char>, Seq<char>)>, t: Seq<char>, fuel: nat)
    requires
        flat(ts, m),
        prim(t),
    ensures
        resolve(ts, t, fuel) == Some(prim_index(t)),
        type_label(ts[prim_index(t)]) == t,
{
    reveal_strlit(":int");
    reveal_strlit(":string");
    reveal_strlit(":listy");
    lemma_find_type(ts, t);
    let i = prim_index(t);
    assert(type_label(ts[i]) == t);
    if let Some(j) = find_type(ts, t) {
        if j < i {
            assert(type_label(ts[j]) != t);
        }
        if j > i {
            assert(type_label(ts[i]) != t);
        }
    }
}

/// In a flat table, a name resolves to the primitive type its alias
/// names.
pub proof fn lemma_flat_resolve(ts: Seq<Type>, m: Seq<(Seq<char>, Seq<char>)>, n: Seq<char>)
    requires
        flat(ts, m),
    ensures
        resolve(ts, n, ts.len()) == match alookup(m, n) {
            Some(t) => Some(prim_index(t)),
            None => None::<int>,
        },
        alookup(m, n) matches Some(t) ==> prim(t) && type_label(ts[prim_index(t)]) == t,
{
    reveal_strlit(":int");
    reveal_strlit(":string");
    reveal_strlit(":listy");
    if prim(n) {
        lemma_prim_resolve(ts, m, n, ts.len());
    } else {
        lemma_find_type(ts, n);
        lemma_alias_find(m, n);
        assert(type_label(ts[0]) != n && type_label(ts[1]) != n && type_label(ts[2]) != n);
        match find_type(ts, n) {
            Some(j) => {
                assert(j >= 3);
                assert(ts[3 + (j - 3)] is TypeDef);
                assert(m[j - 3].0 == n);
                match alias_find(m, n) {
                    Some(k) => {
                        if k < j - 3 {
                            assert(ts[3 + k] is TypeDef);
                            assert(type_label(ts[3 + k]) == n);
                        }
                        if k > j - 3 {
                            assert(m[j - 3].0 == n);
                        }
                        assert(k == j - 3);
                        lemma_prim_resolve(ts, m, m[k].1, (ts.len() - 1) as nat);
                    },
                    None => {
                        assert(m[j - 3].0 != n);
                    },
                }
            },
            None => {
                if let Some(k) = alias_find(m, n) {
                    assert(ts[3 + k] is TypeDef);
                    assert(type_label(ts[3 + k]) == n);
                }
            },
        }
    }
}

/// Adding an alias keeps the lookups that were defined.
pub proof fn lemma_alookup_push(m: Seq<(Seq<char>, Seq<char>)>, e: (Seq<char>, Seq<char>), n: Seq<char>)
    ensures
        alookup(m, n) is Some ==> alookup(m.push(e), n) == alookup(m, n),
        alookup(m, n) is None ==> alookup(m.push(e), n) == (if n == e.0 && !prim(n) { Some(e.1) } else { None::<Seq<char>> }),
{
    assert(m.push(e).drop_last() =~= m);
    lemma_alias_find(m, n);
    if let Some(k) = alias_find(m, n) {
        assert(m.push(e)[k] == m[k]);
    }
}

} // verus!
