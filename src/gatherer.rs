//! The gatherers: passes over the top level of a tree that pick out the
//! directives `&include`, `&type`, `&define` and `&extern`.

use vstd::prelude::*;
use crate::ast::{AST, AstV, ast_views, lemma_expr_view};
use crate::error::{Error, ErrorKind};
use crate::internal::{Function, Param, Type, TypeTable, same_type};
use crate::num::push_nat;
use crate::pos::Range;
use crate::text::{is_word, owned, push_str};
use crate::aliases::{alookup, all_indices, fixpoint, flat, lemma_alookup_push, lemma_flat_resolve, pass, prim, resolution, resolvable, waiting};

verus! {

pub open spec fn is_directive_word(w: Seq<char>) -> bool {
    w == "&define"@ || w == "&extern"@ || w == "&type"@ || w == "&include"@
}

/// The name at the head of an expression node, where it has one.
pub open spec fn head_word(a: AstV) -> Option<Seq<char>> {
    match a {
        AstV::Expr(l) => if l.len() > 0 && l[0] is Ident {
            Some(l[0]->Ident_0)
        } else {
            None
        },
        _ => None,
    }
}

/// Whether the node is a directive: an expression headed by one of the
/// directive words.
pub open spec fn is_directive(a: AstV) -> bool {
    head_word(a) matches Some(w) && is_directive_word(w)
}

/// Whether `keyword` is one of the directive words.
pub fn is_builtin(keyword: &str) -> (r: bool)
    ensures
        r == is_directive_word(keyword@),
{
    let k = owned(keyword);
    is_word(&k, "&define") || is_word(&k, "&extern") || is_word(&k, "&type") || is_word(&k, "&include")
}

/// Whether `a` is an expression headed by the name `keyword`.
pub fn head_is(a: &AST, keyword: &str) -> (r: bool)
    ensures
        r == (head_word(a@) == Some(keyword@)),
{
    match a {
        AST::Expr(r, exprs) => {
            proof {
                lemma_expr_view(*r, *exprs);
            }
            if exprs.len() == 0 {
                return false;
            }
            match &exprs[0] {
                AST::Identifier(_, s) => is_word(s, keyword),
                _ => false,
            }
        },
        _ => false,
    }
}

/// The paths that the `&include` directives among `nodes` name, in order;
/// `None` where one of their items is not a string.
pub open spec fn include_paths(nodes: Seq<AstV>) -> Option<Seq<Seq<char>>>
    decreases nodes.len(),
{
    if nodes.len() == 0 {
        Some(Seq::empty())
    } else {
        match include_paths(nodes.drop_last()) {
            None => None,
            Some(ps) => if head_word(nodes.last()) == Some("&include"@) {
                match strings_from(nodes.last()->Expr_0, 1) {
                    Some(qs) => Some(ps + qs),
                    None => None,
                }
            } else {
                Some(ps)
            },
        }
    }
}

/// The strings `items[i..]`; `None` where one is not a string.
pub open spec fn strings_from(items: Seq<AstV>, i: nat) -> Option<Seq<Seq<char>>>
    decreases items.len() - i,
{
    if i >= items.len() {
        Some(Seq::empty())
    } else if items[i as int] is Str {
        match strings_from(items, i + 1) {
            Some(qs) => Some(seq![items[i as int]->Str_0] + qs),
            None => None,
        }
    } else {
        None
    }
}

proof fn lemma_include_none(s: Seq<AstV>, m: int, n: int)
    requires
        0 <= m <= n <= s.len(),
        include_paths(s.subrange(0, m)) is None,
    ensures
        include_paths(s.subrange(0, n)) is None,
    decreases n - m,
{
    if m < n {
        lemma_include_none(s, m, n - 1);
        assert(s.subrange(0, n).drop_last() =~= s.subrange(0, n - 1));
    }
}

/// Gathers `&include` directives: the paths they name.
pub struct IncludeGatherer;

impl IncludeGatherer {
    pub fn new() -> (r: IncludeGatherer) {
        IncludeGatherer
    }

    /// The paths that the `&include` directives of `ast` name, in order.
    pub fn gather(&self, ast: &Vec<AST>) -> (r: Result<Vec<String>, Error>)
        ensures
            match include_paths(ast_views(ast@)) {
                Some(ps) => r matches Ok(v) && v@.len() == ps.len()
                    && forall|k: int| 0 <= k < ps.len() ==> (#[trigger] v@[k])@ == ps[k],
                None => r matches Err(e) && e.kind == ErrorKind::Directive,
            },
    {
        let mut out: Vec<String> = Vec::new();
        let mut i: usize = 0;
        while i < ast.len()
            invariant
                i <= ast@.len(),
                include_paths(ast_views(ast@.subrange(0, i as int))) matches Some(ps)
                    && out@.len() == ps.len()
                    && forall|k: int| 0 <= k < ps.len() ==> (#[trigger] out@[k])@ == ps[k],
            decreases ast.len() - i,
        {
            let ghost before = out@;
            proof {
                assert(ast_views(ast@.subrange(0, i as int + 1)).drop_last() =~= ast_views(ast@.subrange(0, i as int)));
                assert(ast_views(ast@.subrange(0, i as int + 1)).last() == ast@[i as int]@);
            }
            let node = &ast[i];
            if head_is(node, "&include") {
                let exprs = node.exprs();
                proof {
                    lemma_expr_view(node->Expr_0, *exprs);
                    assert(out@.subrange(0, before.len() as int) =~= before);
                    assert(out@.subrange(before.len() as int, out@.len() as int).map_values(|s: String| s@) =~= Seq::<Seq<char>>::empty());
                }
                let mut j: usize = 1;
                while j < exprs.len()
                    invariant
                        1 <= j <= exprs@.len(),
                        strings_from(ast_views(exprs@), 1) == match strings_from(ast_views(exprs@), j as nat) {
                            Some(qs) => Some(out@.subrange(before.len() as int, out@.len() as int).map_values(|s: String| s@) + qs),
                            None => None::<Seq<Seq<char>>>,
                        },
                        out@.len() >= before.len(),
                        out@.subrange(0, before.len() as int) == before,
                        i < ast@.len(),
                        ast@[i as int]@ == AstV::Expr(ast_views(exprs@)),
                        head_word(ast@[i as int]@) == Some("&include"@),
                        include_paths(ast_views(ast@.subrange(0, i as int))) matches Some(ps)
                            && before.len() == ps.len()
                            && forall|k: int| 0 <= k < ps.len() ==> (#[trigger] before[k])@ == ps[k],
                        ast_views(ast@.subrange(0, i as int + 1)).drop_last() == ast_views(ast@.subrange(0, i as int)),
                        ast_views(ast@.subrange(0, i as int + 1)).last() == ast@[i as int]@,
                    decreases exprs.len() - j,
                {
                    match &exprs[j] {
                        AST::StringLit(_, p) => {
                            out.push(p.clone());
                            proof {
                                let mid = out@.subrange(before.len() as int, out@.len() as int).map_values(|s: String| s@);
                                assert(mid =~= out@.subrange(before.len() as int, out@.len() - 1).map_values(|s: String| s@).push(p@));
                                assert(out@.subrange(0, before.len() as int) =~= before);
                            }
                            j = j + 1;
                        },
                        _ => {
                            let mut m = owned("item at index ");
                            push_nat(&mut m, j as u64);
                            proof {
                                assert(strings_from(ast_views(exprs@), j as nat) is None);
                                assert(include_paths(ast_views(ast@.subrange(0, i as int + 1))) is None);
                                lemma_include_none(ast_views(ast@), i as int + 1, ast@.len() as int);
                                assert(ast_views(ast@).subrange(0, ast@.len() as int) =~= ast_views(ast@));
                                assert(ast_views(ast@).subrange(0, i as int + 1) =~= ast_views(ast@.subrange(0, i as int + 1)));
                            }
                            push_str(&mut m, " must be a string literal");
                            return Err(Error::of(ErrorKind::Directive, m));
                        },
                    }
                }
                proof {
                    let added = out@.subrange(before.len() as int, out@.len() as int).map_values(|s: String| s@);
                    assert(added + Seq::<Seq<char>>::empty() =~= added);
                    let ps0 = include_paths(ast_views(ast@.subrange(0, i as int)))->0;
                    assert forall|k: int| 0 <= k < ps0.len() + added.len() implies (#[trigger] out@[k])@ == (ps0 + added)[k] by {
                        if k < ps0.len() {
                            assert(out@[k] == out@.subrange(0, before.len() as int)[k]);
                        } else {
                            assert(out@[k]@ == added[k - ps0.len()]);
                        }
                    }
                }
            }
            i = i + 1;
        }
        proof {
            assert(ast@.subrange(0, ast@.len() as int) =~= ast@);
        }
        Ok(out)
    }
}

/// The names `(old, new)` of a well-formed `(&type OLD NEW)` node.
pub open spec fn type_pair(items: Seq<AstV>) -> Option<(Seq<char>, Seq<char>)> {
    if items.len() == 3 && items[1] is Ident && items[2] is Ident && items[1]->Ident_0 != items[2]->Ident_0 {
        Some((items[1]->Ident_0, items[2]->Ident_0))
    } else {
        None
    }
}

/// The alias pairs of the `&type` directives among `nodes`, in order;
/// `None` where one is malformed.
pub open spec fn type_pairs(nodes: Seq<AstV>) -> Option<Seq<(Seq<char>, Seq<char>)>>
    decreases nodes.len(),
{
    if nodes.len() == 0 {
        Some(Seq::empty())
    } else {
        match type_pairs(nodes.drop_last()) {
            None => None,
            Some(ps) => if head_word(nodes.last()) == Some("&type"@) {
                match type_pair(nodes.last()->Expr_0) {
                    Some(p) => Some(ps.push(p)),
                    None => None,
                }
            } else {
                Some(ps)
            },
        }
    }
}

proof fn lemma_type_pairs_none(s: Seq<AstV>, m: int, n: int)
    requires
        0 <= m <= n <= s.len(),
        type_pairs(s.subrange(0, m)) is None,
    ensures
        type_pairs(s.subrange(0, n)) is None,
    decreases n - m,
{
    if m < n {
        lemma_type_pairs_none(s, m, n - 1);
        assert(s.subrange(0, n).drop_last() =~= s.subrange(0, n - 1));
    }
}

/// An alias `(old, new, range)`: `new` is to stand for what `old` does.
pub type Alias = (String, String, Range);

pub open spec fn alias_names(v: Seq<Alias>) -> Seq<(Seq<char>, Seq<char>)> {
    v.map_values(|a: Alias| (a.0@, a.1@))
}

/// The table of the three primitive types.
pub open spec fn primitives(ts: Seq<Type>) -> bool {
    ts.len() >= 3 && ts[0] is Number && ts[1] is Str && ts[2] is Listy
}

pub open spec fn ints(v: Seq<usize>) -> Seq<int> {
    Seq::new(v.len(), |i: int| v[i] as int)
}

proof fn lemma_pass_none(m: Seq<(Seq<char>, Seq<char>)>, pairs: Seq<(Seq<char>, Seq<char>)>, pv: Seq<int>, p: int, q: int)
    requires
        1 <= p <= q <= pv.len(),
        pass(m, pairs, pv, p) is None,
    ensures
        pass(m, pairs, pv, q) is None,
    decreases q - p,
{
    if p < q {
        lemma_pass_none(m, pairs, pv, p, q - 1);
    }
}

/// A pending alias whose new name is still unknown waits.
proof fn lemma_waiting_keeps(m: Seq<(Seq<char>, Seq<char>)>, pairs: Seq<(Seq<char>, Seq<char>)>, pv: Seq<int>, q: int, x: int)
    requires
        0 <= x < q <= pv.len(),
        alookup(m, pairs[pv[x]].1) is None,
    ensures
        exists|w: int| 0 <= w < waiting(m, pairs, pv, q).len() && waiting(m, pairs, pv, q)[w] == pv[x],
    decreases q,
{
    let wq = waiting(m, pairs, pv, q);
    if x == q - 1 {
        assert(wq[wq.len() - 1] == pv[x]);
    } else {
        lemma_waiting_keeps(m, pairs, pv, q - 1, x);
        let w1 = waiting(m, pairs, pv, q - 1);
        let w = choose|w: int| 0 <= w < w1.len() && w1[w] == pv[x];
        assert(wq[w] == w1[w]);
    }
}

/// Whether `a` is among the indices `v`.
pub open spec fn listed(v: Seq<usize>, a: int) -> bool {
    exists|x: int| 0 <= x < v.len() && v[x] as int == a
}

/// Gathers `&type` directives and resolves the aliases they make.
pub struct TypeGatherer;

impl TypeGatherer {
    /// Reads one `(&type OLD NEW)` node.
    pub fn visit_expr(&self, exprs: &Vec<AST>) -> (r: Result<Alias, Error>)
        requires
            exprs@.len() > 0,
        ensures
            match type_pair(ast_views(exprs@)) {
                Some(p) => r matches Ok(a) && a.0@ == p.0 && a.1@ == p.1
                    && a.2 == (Range { start: crate::ast::ast_range(exprs@[0]).start, end: crate::ast::ast_range(exprs@[2]).end }),
                None => r matches Err(e) && e.kind == ErrorKind::Directive,
            },
    {
        if exprs.len() != 3 {
            return Err(Error::new(ErrorKind::Directive, "&type must be exactly 3 items long (&type TYPE NEWTYPE)"));
        }
        let start = exprs[0].range().start;
        if !exprs[1].is_identifier() {
            return Err(Error::new(ErrorKind::Directive, "param 1: expected identifier"));
        }
        if !exprs[2].is_identifier() {
            return Err(Error::new(ErrorKind::Directive, "param 2: expected identifier"));
        }
        let oldtype = owned(exprs[1].identifier());
        let newtype = owned(exprs[2].identifier());
        if oldtype.eq(&newtype) {
            let mut m = owned("illegal type definition: cannot define a type to itself (");
            push_str(&mut m, oldtype.as_str());
            push_str(&mut m, " to ");
            push_str(&mut m, newtype.as_str());
            push_str(&mut m, ")");
            return Err(Error::of(ErrorKind::Directive, m));
        }
        let end = exprs[2].range().end;
        Ok((oldtype, newtype, Range::new(start, end)))
    }

    /// The aliases that the `&type` directives of `ast` make, in order.
    pub fn gather(&self, ast: &Vec<AST>) -> (r: Result<Vec<Alias>, Error>)
        ensures
            match type_pairs(ast_views(ast@)) {
                Some(ps) => r matches Ok(v) && alias_names(v@) == ps,
                None => r matches Err(e) && e.kind == ErrorKind::Directive,
            },
    {
        let mut out: Vec<Alias> = Vec::new();
        let mut i: usize = 0;
        while i < ast.len()
            invariant
                i <= ast@.len(),
                type_pairs(ast_views(ast@.subrange(0, i as int))) == Some(alias_names(out@)),
            decreases ast.len() - i,
        {
            proof {
                assert(ast_views(ast@.subrange(0, i as int + 1)).drop_last() =~= ast_views(ast@.subrange(0, i as int)));
                assert(ast_views(ast@.subrange(0, i as int + 1)).last() == ast@[i as int]@);
            }
            let node = &ast[i];
            if head_is(node, "&type") {
                let exprs = node.exprs();
                proof {
                    lemma_expr_view(node->Expr_0, *exprs);
                }
                match self.visit_expr(exprs) {
                    Ok(a) => {
                        out.push(a);
                        assert(alias_names(out@) =~= alias_names(out@.drop_last()).push((a.0@, a.1@)));
                    },
                    Err(e) => {
                        let mut m = owned("builtin expression at ");
                        let t = node.range().text();
                        push_str(&mut m, t.as_str());
                        proof {
                            lemma_type_pairs_none(ast_views(ast@), i as int + 1, ast@.len() as int);
                            assert(ast_views(ast@).subrange(0, ast@.len() as int) =~= ast_views(ast@));
                            assert(ast_views(ast@).subrange(0, i as int + 1) =~= ast_views(ast@.subrange(0, i as int + 1)));
                        }
                        return Err(e.chain(owned("&type")).chain(m));
                    },
                }
            }
            i = i + 1;
        }
        proof {
            assert(ast@.subrange(0, ast@.len() as int) =~= ast@);
        }
        Ok(out)
    }

    /// Resolves aliases, starting from a table of the primitive types, as
    /// [`resolution`] says: a pass adds every alias whose target is known;
    /// passes go on while they make progress, so there are at most as many
    /// as aliases. An alias of a name already known to stand for another
    /// type, or aliases left when a pass adds none (a cycle or an unknown
    /// target), are errors.
    pub fn link(&self, aliases: &Vec<Alias>) -> (r: Result<TypeTable, Error>)
        ensures
            r is Ok <==> resolvable(alias_names(aliases@)),
            r matches Ok(t) ==> primitives(t.types@) && flat(t.types@, resolution(alias_names(aliases@))->0)
                && forall|k: int| 0 <= k < aliases@.len() ==> #[trigger] t.resolves(aliases@[k].1@) is Some,
            r matches Err(e) ==> e.kind == ErrorKind::TypeAlias,
    {
        let ghost pairs = alias_names(aliases@);
        let ghost n = pairs.len() as int;
        let mut types: Vec<Type> = Vec::new();
        types.push(Type::Number);
        types.push(Type::Str);
        types.push(Type::Listy);
        let mut table = TypeTable::new(types);
        let ghost mut m: Seq<(Seq<char>, Seq<char>)> = Seq::empty();
        let mut pending: Vec<usize> = Vec::new();
        let mut k: usize = 0;
        while k < aliases.len()
            invariant
                k <= aliases@.len(),
                pending@.len() == k,
                forall|x: int| 0 <= x < k ==> pending@[x] == x,
            decreases aliases.len() - k,
        {
            pending.push(k);
            k = k + 1;
        }
        proof {
            assert(ints(pending@) =~= all_indices(n));
            assert forall|a: int| 0 <= a < aliases@.len() implies alookup(m, (#[trigger] pairs[a]).1) is Some
                || listed(pending@, a) by {
                assert(pending@[a] as int == a);
            }
        }
        let ghost mut fuel: nat = (n + 1) as nat;
        loop
            invariant
                flat(table.types@, m),
                pairs == alias_names(aliases@),
                n == pairs.len(),
                forall|x: int| 0 <= x < pending@.len() ==> pending@[x] < aliases@.len(),
                resolution(pairs) == fixpoint(m, pairs, ints(pending@), fuel),
                fuel >= pending@.len() + 1,
                forall|a: int| 0 <= a < aliases@.len() ==> alookup(m, (#[trigger] pairs[a]).1) is Some
                    || listed(pending@, a),
            decreases pending@.len(),
        {
            if pending.len() == 0 {
                proof {
                    assert(ints(pending@) =~= Seq::<int>::empty());
                    assert forall|k: int| 0 <= k < aliases@.len() implies #[trigger] table.resolves(aliases@[k].1@) is Some by {
                        assert(pairs[k].1 == aliases@[k].1@);
                        assert(alookup(m, pairs[k].1) is Some);
                        lemma_flat_resolve(table.types@, m, pairs[k].1);
                    }
                }
                return Ok(table);
            }
            let ghost m0 = m;
            let ghost pv = ints(pending@);
            let mut p: usize = 0;
            while p < pending.len()
                invariant
                    flat(table.types@, m),
                    pairs == alias_names(aliases@),
                    pv == ints(pending@),
                    p <= pending@.len(),
                    forall|x: int| 0 <= x < pending@.len() ==> pending@[x] < aliases@.len(),
                    pass(m0, pairs, pv, p as int) == Some(m),
                    resolution(pairs) == fixpoint(m0, pairs, pv, fuel),
                    fuel >= pv.len() + 1,
                    pv.len() > 0,
                    forall|a: int| 0 <= a < aliases@.len() ==> alookup(m0, (#[trigger] pairs[a]).1) is Some
                        ==> alookup(m, pairs[a].1) == alookup(m0, pairs[a].1),
                decreases pending.len() - p,
            {
                let a = &aliases[pending[p]];
                let ghost idx = pending@[p as int] as int;
                proof {
                    assert(pairs[idx] == (a.0@, a.1@));
                    assert(pv[p as int] == idx);
                    lemma_flat_resolve(table.types@, m, a.1@);
                    lemma_flat_resolve(table.types@, m, a.0@);
                }
                let old_name = a.0.as_str();
                let new_name = a.1.as_str();
                if table.has_type(new_name) {
                    let pointing = owned(table.get_type(new_name).unwrap().name());
                    if !is_word(&pointing, old_name) {
                        let mut msg = owned("invalid type mapping from ");
                        push_str(&mut msg, new_name);
                        push_str(&mut msg, " to ");
                        push_str(&mut msg, old_name);
                        push_str(&mut msg, ": was already set to ");
                        push_str(&mut msg, pointing.as_str());
                        push_str(&mut msg, " at ");
                        let t = a.2.text();
                        push_str(&mut msg, t.as_str());
                        proof {
                            lemma_pass_none(m0, pairs, pv, p as int + 1, pv.len() as int);
                        }
                        return Err(Error::of(ErrorKind::TypeAlias, msg));
                    }
                } else if table.has_type(old_name) {
                    let ghost before = table.types@;
                    let ghost t = alookup(m, a.0@)->0;
                    table.add_typedef(new_name, old_name);
                    proof {
                        let m1 = m.push((a.1@, t));
                        assert(table.types@.drop_last() == before);
                        assert forall|k: int| 0 <= k < m1.len() implies (#[trigger] table.types@[3 + k]) is TypeDef
                            && table.types@[3 + k]->TypeDef_0@ == m1[k].0 && table.types@[3 + k]->TypeDef_1@ == m1[k].1 by {
                            if k < m.len() {
                                assert(table.types@[3 + k] == before[3 + k]);
                            }
                        }
                        assert(prim(t));
                        assert(!prim(a.1@));
                        assert(m1[m.len() as int] == (a.1@, t));
                        assert forall|k: int| 0 <= k < m1.len() implies prim(#[trigger] m1[k].1) && !prim(m1[k].0) by {
                            if k < m.len() {
                                assert(m1[k] == m[k]);
                            }
                        }
                        assert forall|b: int| 0 <= b < aliases@.len() && alookup(m0, (#[trigger] pairs[b]).1) is Some
                            implies alookup(m1, pairs[b].1) == alookup(m0, pairs[b].1) by {
                            lemma_alookup_push(m, (a.1@, t), pairs[b].1);
                        }
                        m = m1;
                    }
                }
                p = p + 1;
            }
            let mut next: Vec<usize> = Vec::new();
            let mut q: usize = 0;
            while q < pending.len()
                invariant
                    flat(table.types@, m),
                    pv == ints(pending@),
                    q <= pending@.len(),
                    forall|x: int| 0 <= x < pending@.len() ==> pending@[x] < aliases@.len(),
                    forall|x: int| 0 <= x < next@.len() ==> next@[x] < aliases@.len(),
                    ints(next@) == waiting(m, pairs, pv, q as int),
                    pairs == alias_names(aliases@),
                    next@.len() <= q,
                decreases pending.len() - q,
            {
                let idx = pending[q];
                proof {
                    assert(pairs[idx as int].1 == aliases@[idx as int].1@);
                    lemma_flat_resolve(table.types@, m, aliases@[idx as int].1@);
                }
                if !table.has_type(aliases[idx].1.as_str()) {
                    next.push(idx);
                    assert(ints(next@) =~= waiting(m, pairs, pv, q as int).push(pv[q as int]));
                }
                q = q + 1;
            }
            if next.len() == pending.len() {
                let mut msg = owned("a pass deduced no type; there is a cycle or an unknown type. These types could not be deduced:\n");
                let mut u: usize = 0;
                while u < next.len()
                    invariant
                        forall|x: int| 0 <= x < next@.len() ==> next@[x] < aliases@.len(),
                    decreases next.len() - u,
                {
                    let a = &aliases[next[u]];
                    push_str(&mut msg, "    ");
                    push_str(&mut msg, a.0.as_str());
                    push_str(&mut msg, " -> ");
                    push_str(&mut msg, a.1.as_str());
                    push_str(&mut msg, " (defined at ");
                    let t = a.2.text();
                    push_str(&mut msg, t.as_str());
                    push_str(&mut msg, ")\n");
                    u = u + 1;
                }
                return Err(Error::of(ErrorKind::TypeAlias, msg));
            }
            proof {
                assert(fixpoint(m0, pairs, pv, fuel) == fixpoint(m, pairs, ints(next@), (fuel - 1) as nat));
                assert forall|a: int| 0 <= a < aliases@.len() implies alookup(m, (#[trigger] pairs[a]).1) is Some
                    || listed(next@, a) by {
                    if alookup(m0, pairs[a].1) is None && alookup(m, pairs[a].1) is None {
                        let x = choose|x: int| 0 <= x < pending@.len() && pending@[x] as int == a;
                        lemma_waiting_keeps(m, pairs, pv, pv.len() as int, x);
                        let w = choose|w: int| 0 <= w < next@.len() && ints(next@)[w] == a;
                        assert(next@[w] as int == a);
                    }
                }
                fuel = (fuel - 1) as nat;
            }
            pending = next;
        }
    }

    /// The table of the primitive types and the aliases that the `&type`
    /// directives of `ast` make.
    pub fn gather_and_link(&mut self, ast: &Vec<AST>) -> (r: Result<TypeTable, Error>)
        ensures
            r is Ok <==> (type_pairs(ast_views(ast@)) matches Some(ps) && resolvable(ps)),
            r matches Ok(t) ==> flat(t.types@, resolution(type_pairs(ast_views(ast@))->0)->0),
            type_pairs(ast_views(ast@)) is None ==> (r matches Err(e) && e.kind == ErrorKind::Directive),
            r matches Err(e) ==> e.kind == ErrorKind::Directive || e.kind == ErrorKind::TypeAlias,
            r matches Ok(t) ==> primitives(t.types@) && (type_pairs(ast_views(ast@)) matches Some(ps)
                && forall|k: int| 0 <= k < ps.len() ==> #[trigger] t.resolves(ps[k].1) is Some),
    {
        let aliases = self.gather(ast)?;
        let r = self.link(&aliases);
        proof {
            if r is Ok {
                let t = r->Ok_0;
                let ps = type_pairs(ast_views(ast@))->0;
                assert forall|k: int| 0 <= k < ps.len() implies #[trigger] t.resolves(ps[k].1) is Some by {
                    assert(alias_names(aliases@)[k] == ps[k]);
                    assert(t.resolves(aliases@[k].1@) is Some);
                }
            }
        }
        r
    }
}

/// The children of the nodes among `nodes` headed by `kw`, in order.
pub open spec fn directives(nodes: Seq<AstV>, kw: Seq<char>) -> Seq<Seq<AstV>>
    decreases nodes.len(),
{
    if nodes.len() == 0 {
        Seq::empty()
    } else if head_word(nodes.last()) == Some(kw) {
        directives(nodes.drop_last(), kw).push(nodes.last()->Expr_0)
    } else {
        directives(nodes.drop_last(), kw)
    }
}

/// The parameters `(name, optional)` that the list `items[i..]` declares,
/// `opt` telling whether `?` has been seen; `None` where the list is
/// malformed. A name may be followed by the name of a known type.
pub open spec fn param_specs(items: Seq<AstV>, i: nat, opt: bool, tt: TypeTable) -> Option<Seq<(Seq<char>, bool)>>
    decreases items.len() - i,
{
    if i >= items.len() {
        Some(Seq::empty())
    } else if !(items[i as int] is Ident) {
        None
    } else {
        let n = items[i as int]->Ident_0;
        if n == "?"@ {
            if opt {
                None
            } else {
                param_specs(items, i + 1, true, tt)
            }
        } else if i + 1 == items.len() {
            Some(seq![(n, opt)])
        } else if !(items[i as int + 1] is Ident) {
            None
        } else {
            let next: nat = if tt.resolves(items[i as int + 1]->Ident_0) is Some { i + 2 } else { i + 1 };
            match param_specs(items, next, opt, tt) {
                Some(r) => Some(seq![(n, opt)] + r),
                None => None,
            }
        }
    }
}

/// The types the parameters of `items[i..]` declare: the index of the
/// type a name after a parameter resolves to, or `None` for any type.
pub open spec fn param_kinds(items: Seq<AstV>, i: nat, opt: bool, tt: TypeTable) -> Seq<Option<int>>
    decreases items.len() - i,
{
    if i >= items.len() || !(items[i as int] is Ident) {
        Seq::empty()
    } else {
        let n = items[i as int]->Ident_0;
        if n == "?"@ {
            if opt {
                Seq::empty()
            } else {
                param_kinds(items, i + 1, true, tt)
            }
        } else if i + 1 == items.len() {
            seq![None]
        } else if !(items[i as int + 1] is Ident) {
            Seq::empty()
        } else {
            let r = tt.resolves(items[i as int + 1]->Ident_0);
            let next: nat = if r is Some { i + 2 } else { i + 1 };
            seq![r] + param_kinds(items, next, opt, tt)
        }
    }
}

/// Whether a parameter has the type `k` names in `tt`, and takes no
/// variable run of arguments.
pub open spec fn kind_ok(p: Param, k: Option<int>, tt: TypeTable) -> bool {
    &&& !p.varargs
    &&& match k {
        Some(j) => same_type(p.param_type, tt.types@[j]),
        None => p.param_type == Type::Any,
    }
}

pub open spec fn param_views(ps: Seq<Param>) -> Seq<(Seq<char>, bool)> {
    ps.map_values(|p: Param| (p.name@, p.optional))
}

/// Whether the optional flags of a parameter list never go from set to
/// unset: required parameters first, then optional ones.
pub open spec fn required_then_optional(ps: Seq<(Seq<char>, bool)>) -> bool {
    forall|j: int, k: int| 0 <= j < k < ps.len() && (#[trigger] ps[j]).1 ==> (#[trigger] ps[k]).1
}

/// A declared parameter list is required parameters, then optional ones.
pub proof fn lemma_params_ordered(items: Seq<AstV>, i: nat, opt: bool, tt: TypeTable)
    ensures
        param_specs(items, i, opt, tt) matches Some(r) ==> required_then_optional(r)
            && (opt ==> forall|k: int| 0 <= k < r.len() ==> (#[trigger] r[k]).1),
    decreases items.len() - i,
{
    if i < items.len() && items[i as int] is Ident {
        let n = items[i as int]->Ident_0;
        if n == "?"@ {
            if !opt {
                lemma_params_ordered(items, i + 1, true, tt);
            }
        } else if i + 1 < items.len() && items[i as int + 1] is Ident {
            let next: nat = if tt.resolves(items[i as int + 1]->Ident_0) is Some { i + 2 } else { i + 1 };
            lemma_params_ordered(items, next, opt, tt);
            if let Some(r) = param_specs(items, next, opt, tt) {
                let all = seq![(n, opt)] + r;
                assert forall|j: int, k: int| 0 <= j < k < all.len() && (#[trigger] all[j]).1 implies (#[trigger] all[k]).1 by {
                    if j == 0 {
                        assert(opt);
                        assert(all[k] == r[k - 1]);
                    } else {
                        assert(all[j] == r[j - 1]);
                        assert(all[k] == r[k - 1]);
                    }
                }
            }
        }
    }
}

/// The body of a function defined by `(&define NAME (PARAMS) [DOC] BODY*)`
/// starts after the docstring, where there is one.
pub open spec fn body_start(items: Seq<AstV>) -> int {
    if items.len() >= 4 && items[3] is Str {
        4
    } else {
        3
    }
}

/// Whether `f` is the function that the `&define` children `items`
/// describe, in the type table `tt`.
pub open spec fn defines(items: Seq<AstV>, tt: TypeTable, f: Function) -> bool {
    &&& items.len() >= 3
    &&& items[1] is Ident
    &&& f.name@ == items[1]->Ident_0
    &&& items[2] is Expr
    &&& param_specs(items[2]->Expr_0, 0, false, tt) == Some(param_views(f.params@))
    &&& param_kinds(items[2]->Expr_0, 0, false, tt).len() == f.params@.len()
    &&& forall|k: int| 0 <= k < f.params@.len() ==> kind_ok(#[trigger] f.params@[k], param_kinds(items[2]->Expr_0, 0, false, tt)[k], tt)
    &&& f.docstring@ == (if body_start(items) == 4 { items[3]->Str_0 } else { Seq::empty() })
    &&& ast_views(f.body@) == items.subrange(body_start(items), items.len() as int)
    &&& !f.is_external
}

/// Whether the `&define` children `items` are well formed.
pub open spec fn define_ok(items: Seq<AstV>, tt: TypeTable) -> bool {
    items.len() >= 3 && items[1] is Ident && items[2] is Expr && param_specs(items[2]->Expr_0, 0, false, tt) is Some
}

/// Gathers `&define` directives: the functions the program defines.
pub struct FunGatherer<'a> {
    pub source_file: &'a str,
    pub type_table: &'a TypeTable,
}

impl<'a> FunGatherer<'a> {
    pub fn new(source_file: &'a str, type_table: &'a TypeTable) -> (r: FunGatherer<'a>)
        ensures
            r.source_file == source_file,
            r.type_table == type_table,
    {
        FunGatherer { source_file, type_table }
    }

    /// The parameters a parameter list declares.
    pub fn get_params(&self, expr_list: &Vec<AST>) -> (r: Result<Vec<Param>, Error>)
        ensures
            match param_specs(ast_views(expr_list@), 0, false, *self.type_table) {
                Some(ps) => r matches Ok(v) && param_views(v@) == ps,
                None => r matches Err(e) && e.kind == ErrorKind::Directive,
            },
            r matches Ok(v) ==> param_kinds(ast_views(expr_list@), 0, false, *self.type_table).len() == v@.len()
                && forall|k: int| 0 <= k < v@.len() ==> kind_ok(#[trigger] v@[k],
                    param_kinds(ast_views(expr_list@), 0, false, *self.type_table)[k], *self.type_table),
    {
        let ghost items = ast_views(expr_list@);
        let mut params: Vec<Param> = Vec::new();
        let limit = expr_list.len();
        let mut i: usize = 0;
        let mut optional = false;
        let ghost mut kinds: Seq<Option<int>> = Seq::empty();
        proof {
            assert(kinds + param_kinds(items, 0, false, *self.type_table) =~= param_kinds(items, 0, false, *self.type_table));
        }
        while i < limit
            invariant
                limit == expr_list@.len(),
                items == ast_views(expr_list@),
                i <= limit,
                param_specs(items, 0, false, *self.type_table) == match param_specs(items, i as nat, optional, *self.type_table) {
                    Some(r) => Some(param_views(params@) + r),
                    None => None::<Seq<(Seq<char>, bool)>>,
                },
                param_kinds(items, 0, false, *self.type_table) == kinds + param_kinds(items, i as nat, optional, *self.type_table),
                kinds.len() == params@.len(),
                forall|k: int| 0 <= k < params@.len() ==> kind_ok(#[trigger] params@[k], kinds[k], *self.type_table),
            decreases limit - i,
        {
            let name_expr = &expr_list[i];
            if !name_expr.is_identifier() {
                return Err(Error::new(ErrorKind::Directive, "expected identifier in params list"));
            }
            let name = name_expr.identifier();
            let ghost pb = param_views(params@);
            if is_word(&owned(name), "?") {
                if optional {
                    return Err(Error::new(ErrorKind::Directive, "only one `?' token is allowed in parameter declarations"));
                }
                optional = true;
                i = i + 1;
            } else if i + 1 == limit {
                let ghost before_params = params@;
                params.push(Param::any(owned(name), optional));
                proof {
                    assert(kinds.push(None) + param_kinds(items, (i + 1) as nat, optional, *self.type_table) =~= kinds + seq![None]);
                    assert forall|k: int| 0 <= k < params@.len() implies kind_ok(#[trigger] params@[k], kinds.push(None)[k], *self.type_table) by {
                        if k < kinds.len() {
                            assert(params@[k] == before_params[k]);
                        }
                    }
                    kinds = kinds.push(None);
                    assert(param_views(params@) =~= pb.push((name@, optional)));
                    assert(pb + seq![(name@, optional)] =~= pb.push((name@, optional)) + Seq::<(Seq<char>, bool)>::empty());
                }
                i = i + 1;
            } else {
                let next_expr = &expr_list[i + 1];
                if !next_expr.is_identifier() {
                    return Err(Error::new(ErrorKind::Directive, "expected identifier in params list"));
                }
                let ghost rk = self.type_table.resolves(next_expr@->Ident_0);
                let ghost before_params = params@;
                match self.type_table.get_type(next_expr.identifier()) {
                    Some(typ) => {
                        params.push(Param::from_type(owned(name), typ.clone(), optional));
                        i = i + 2;
                    },
                    None => {
                        params.push(Param::any(owned(name), optional));
                        i = i + 1;
                    },
                }
                proof {
                    assert(kinds.push(rk) + param_kinds(items, i as nat, optional, *self.type_table)
                        =~= kinds + (seq![rk] + param_kinds(items, i as nat, optional, *self.type_table)));
                    assert forall|k: int| 0 <= k < params@.len() implies kind_ok(#[trigger] params@[k], kinds.push(rk)[k], *self.type_table) by {
                        if k < kinds.len() {
                            assert(params@[k] == before_params[k]);
                        }
                    }
                    kinds = kinds.push(rk);
                }
                proof {
                    assert(param_views(params@) =~= pb.push((name@, optional)));
                    let rest = param_specs(items, i as nat, optional, *self.type_table);
                    if let Some(r) = rest {
                        assert(pb + (seq![(name@, optional)] + r) =~= pb.push((name@, optional)) + r);
                    }
                }
            }
        }
        proof {
            assert(param_views(params@) + Seq::<(Seq<char>, bool)>::empty() =~= param_views(params@));
        }
        Ok(params)
    }

    /// Reads one `(&define NAME (PARAMS) [DOC] BODY*)` node.
    pub fn visit_expr(&self, exprs: &Vec<AST>) -> (r: Result<Function, Error>)
        ensures
            define_ok(ast_views(exprs@), *self.type_table) ==> (r matches Ok(f) && defines(ast_views(exprs@), *self.type_table, f)),
            r matches Ok(f) ==> f.source_file@ == self.source_file@,
            !define_ok(ast_views(exprs@), *self.type_table) ==> (r matches Err(e) && e.kind == ErrorKind::Directive),
    {
        let ghost items = ast_views(exprs@);
        if exprs.len() < 3 {
            return Err(Error::new(ErrorKind::Directive, "&define must be at least 3 items long (&define NAME (PARAMS) ... )"));
        }
        if !exprs[1].is_identifier() {
            return Err(Error::new(ErrorKind::Directive, "expected a function name"));
        }
        let name = owned(exprs[1].identifier());
        let params = match &exprs[2] {
            AST::Expr(r, expr_list) => {
                proof {
                    lemma_expr_view(*r, *expr_list);
                }
                match self.get_params(expr_list) {
                    Ok(p) => p,
                    Err(e) => {
                        let t = r.text();
                        return Err(e.chain(t));
                    },
                }
            },
            _ => {
                return Err(Error::new(ErrorKind::Directive, "expected params list"));
            },
        };
        let mut start: usize = 3;
        let mut docstring = String::new();
        if exprs.len() >= 4 {
            match &exprs[3] {
                AST::StringLit(_, s) => {
                    docstring = s.clone();
                    start = 4;
                },
                _ => {},
            }
        }
        let mut body: Vec<AST> = Vec::new();
        let mut k: usize = start;
        while k < exprs.len()
            invariant
                start <= k <= exprs@.len(),
                body@.len() == k - start,
                forall|x: int| 0 <= x < body@.len() ==> (#[trigger] body@[x])@ == exprs@[start + x]@,
            decreases exprs.len() - k,
        {
            body.push(exprs[k].clone());
            k = k + 1;
        }
        let f = Function::new(name, params, docstring, body, self.source_file);
        proof {
            assert(ast_views(f.body@) =~= items.subrange(body_start(items), items.len() as int));
        }
        Ok(f)
    }

    /// The functions that the `&define` directives of `ast` define, in order.
    pub fn gather(&self, ast: &Vec<AST>) -> (r: Result<Vec<Function>, Error>)
        ensures
            r is Ok <==> forall|k: int| 0 <= k < directives(ast_views(ast@), "&define"@).len()
                ==> define_ok(#[trigger] directives(ast_views(ast@), "&define"@)[k], *self.type_table),
            r matches Ok(v) ==> v@.len() == directives(ast_views(ast@), "&define"@).len()
                && forall|k: int| 0 <= k < v@.len()
                    ==> defines(directives(ast_views(ast@), "&define"@)[k], *self.type_table, #[trigger] v@[k])
                    && v@[k].source_file@ == self.source_file@,
            r matches Err(e) ==> e.kind == ErrorKind::Directive,
    {
        let ghost kw = "&define"@;
        let ghost all = ast_views(ast@);
        let mut out: Vec<Function> = Vec::new();
        let mut i: usize = 0;
        while i < ast.len()
            invariant
                i <= ast@.len(),
                all == ast_views(ast@),
                kw == "&define"@,
                out@.len() == directives(all.subrange(0, i as int), kw).len(),
                forall|k: int| 0 <= k < out@.len()
                    ==> defines(directives(all.subrange(0, i as int), kw)[k], *self.type_table, #[trigger] out@[k])
                    && out@[k].source_file@ == self.source_file@,
                forall|k: int| 0 <= k < out@.len()
                    ==> define_ok(#[trigger] directives(all.subrange(0, i as int), kw)[k], *self.type_table),
            decreases ast.len() - i,
        {
            proof {
                assert(all.subrange(0, i as int + 1).drop_last() =~= all.subrange(0, i as int));
                assert(all.subrange(0, i as int + 1).last() == ast@[i as int]@);
            }
            let node = &ast[i];
            if head_is(node, "&define") {
                let exprs = node.exprs();
                proof {
                    lemma_expr_view(node->Expr_0, *exprs);
                }
                match self.visit_expr(exprs) {
                    Ok(f) => {
                        out.push(f);
                    },
                    Err(e) => {
                        proof {
                            lemma_directives_prefix(all, kw, i as int + 1, all.len() as int);
                            assert(all.subrange(0, all.len() as int) =~= all);
                            let d = directives(all.subrange(0, i as int + 1), kw);
                            assert(ast@[i as int]@ == AstV::Expr(ast_views(exprs@)));
                            assert(d == directives(all.subrange(0, i as int), kw).push(ast_views(exprs@)));
                            assert(!define_ok(d[d.len() - 1], *self.type_table));
                            assert(directives(all, kw)[d.len() - 1] == d[d.len() - 1]);
                        }
                        let mut m = owned("builtin expression at ");
                        let t = node.range().text();
                        push_str(&mut m, t.as_str());
                        return Err(e.chain(owned("&define")).chain(m));
                    },
                }
            }
            i = i + 1;
        }
        proof {
            assert(all.subrange(0, all.len() as int) =~= all);
        }
        Ok(out)
    }
}

/// The directives of a prefix are a prefix of the directives.
proof fn lemma_directives_prefix(s: Seq<AstV>, kw: Seq<char>, m: int, n: int)
    requires
        0 <= m <= n <= s.len(),
    ensures
        directives(s.subrange(0, m), kw).len() <= directives(s.subrange(0, n), kw).len(),
        forall|k: int| 0 <= k < directives(s.subrange(0, m), kw).len()
            ==> directives(s.subrange(0, m), kw)[k] == #[trigger] directives(s.subrange(0, n), kw)[k],
    decreases n - m,
{
    if m < n {
        lemma_directives_prefix(s, kw, m, n - 1);
        assert(s.subrange(0, n).drop_last() =~= s.subrange(0, n - 1));
    }
}

/// Whether the `&extern` children `items` are well formed:
/// `(&extern NAME (PARAM*) [DOC])` with the parameters plain names.
pub open spec fn extern_ok(items: Seq<AstV>) -> bool {
    &&& items.len() == 3 || items.len() == 4
    &&& items[1] is Ident
    &&& items[2] is Expr
    &&& forall|k: int| 0 <= k < items[2]->Expr_0.len() ==> (#[trigger] items[2]->Expr_0[k]) is Ident
    &&& items.len() == 4 ==> items[3] is Str
}

/// Whether `f` is the external function that the `&extern` children
/// `items` declare: its parameters are required and of any type.
pub open spec fn declares(items: Seq<AstV>, f: Function) -> bool {
    &&& f.name@ == items[1]->Ident_0
    &&& f.params@.len() == items[2]->Expr_0.len()
    &&& forall|k: int| 0 <= k < f.params@.len() ==> (#[trigger] f.params@[k]).name@ == items[2]->Expr_0[k]->Ident_0
        && !f.params@[k].optional
    &&& f.docstring@ == (if items.len() == 4 { items[3]->Str_0 } else { Seq::empty() })
    &&& f.body@.len() == 0
    &&& f.is_external
}

/// Gathers `&extern` directives: functions declared but not defined here.
pub struct ExternGatherer<'a> {
    pub source_file: &'a str,
}

impl<'a> ExternGatherer<'a> {
    pub fn new(source_file: &'a str) -> (r: ExternGatherer<'a>)
        ensures
            r.source_file == source_file,
    {
        ExternGatherer { source_file }
    }

    /// Reads one `(&extern NAME (PARAM*) [DOC])` node.
    pub fn visit_expr(&self, exprs: &Vec<AST>) -> (r: Result<Function, Error>)
        ensures
            extern_ok(ast_views(exprs@)) ==> (r matches Ok(f) && declares(ast_views(exprs@), f)),
            !extern_ok(ast_views(exprs@)) ==> (r matches Err(e) && e.kind == ErrorKind::Directive),
            r matches Ok(f) ==> f.source_file@ == self.source_file@,
    {
        let ghost items = ast_views(exprs@);
        if exprs.len() < 3 || exprs.len() > 4 {
            return Err(Error::new(ErrorKind::Directive, "&extern must be at least 3 and at most 4 items long (&extern NAME (PARAMS) [DOC])"));
        }
        if !exprs[1].is_identifier() {
            return Err(Error::new(ErrorKind::Directive, "expected a function name"));
        }
        let name = owned(exprs[1].identifier());
        let mut params: Vec<Param> = Vec::new();
        match &exprs[2] {
            AST::Expr(r, list) => {
                proof {
                    lemma_expr_view(*r, *list);
                }
                let mut k: usize = 0;
                while k < list.len()
                    invariant
                        k <= list@.len(),
                        params@.len() == k,
                        forall|x: int| 0 <= x < k ==> (#[trigger] list@[x]) is Identifier
                            && params@[x].name@ == list@[x]->Identifier_1@ && !params@[x].optional,
                        items == ast_views(exprs@),
                        items[2] == AstV::Expr(ast_views(list@)),
                    decreases list.len() - k,
                {
                    match &list[k] {
                        AST::Identifier(_, p) => {
                            params.push(Param::any(p.clone(), false));
                        },
                        _ => {
                            proof {
                                assert(!(ast_views(list@)[k as int] is Ident));
                            }
                            return Err(Error::new(ErrorKind::Directive, "expected identifier in params list"));
                        },
                    }
                    k = k + 1;
                }
            },
            _ => {
                return Err(Error::new(ErrorKind::Directive, "expected params list"));
            },
        }
        let docstring = if exprs.len() == 4 {
            match &exprs[3] {
                AST::StringLit(_, s) => s.clone(),
                _ => {
                    return Err(Error::new(ErrorKind::Directive, "expected string literal for &extern DOCSTRING"));
                },
            }
        } else {
            String::new()
        };
        Ok(Function::external(name, params, docstring, self.source_file))
    }

    /// The functions that the `&extern` directives of `ast` declare, in order.
    pub fn gather(&self, ast: &Vec<AST>) -> (r: Result<Vec<Function>, Error>)
        ensures
            r is Ok <==> forall|k: int| 0 <= k < directives(ast_views(ast@), "&extern"@).len()
                ==> extern_ok(#[trigger] directives(ast_views(ast@), "&extern"@)[k]),
            r matches Ok(v) ==> v@.len() == directives(ast_views(ast@), "&extern"@).len()
                && forall|k: int| 0 <= k < v@.len()
                    ==> declares(directives(ast_views(ast@), "&extern"@)[k], #[trigger] v@[k]),
            r matches Err(e) ==> e.kind == ErrorKind::Directive,
    {
        let ghost kw = "&extern"@;
        let ghost all = ast_views(ast@);
        let mut out: Vec<Function> = Vec::new();
        let mut i: usize = 0;
        while i < ast.len()
            invariant
                i <= ast@.len(),
                all == ast_views(ast@),
                kw == "&extern"@,
                out@.len() == directives(all.subrange(0, i as int), kw).len(),
                forall|k: int| 0 <= k < out@.len()
                    ==> declares(directives(all.subrange(0, i as int), kw)[k], #[trigger] out@[k]),
                forall|k: int| 0 <= k < out@.len()
                    ==> extern_ok(#[trigger] directives(all.subrange(0, i as int), kw)[k]),
            decreases ast.len() - i,
        {
            proof {
                assert(all.subrange(0, i as int + 1).drop_last() =~= all.subrange(0, i as int));
                assert(all.subrange(0, i as int + 1).last() == ast@[i as int]@);
            }
            let node = &ast[i];
            if head_is(node, "&extern") {
                let exprs = node.exprs();
                proof {
                    lemma_expr_view(node->Expr_0, *exprs);
                }
                match self.visit_expr(exprs) {
                    Ok(f) => {
                        out.push(f);
                    },
                    Err(e) => {
                        proof {
                            lemma_directives_prefix(all, kw, i as int + 1, all.len() as int);
                            assert(all.subrange(0, all.len() as int) =~= all);
                            let d = directives(all.subrange(0, i as int + 1), kw);
                            assert(ast@[i as int]@ == AstV::Expr(ast_views(exprs@)));
                            assert(d == directives(all.subrange(0, i as int), kw).push(ast_views(exprs@)));
                            assert(directives(all, kw)[d.len() - 1] == d[d.len() - 1]);
                        }
                        let mut m = owned("builtin expression at ");
                        let t = node.range().text();
                        push_str(&mut m, t.as_str());
                        return Err(e.chain(owned("&extern")).chain(m));
                    },
                }
            }
            i = i + 1;
        }
        proof {
            assert(all.subrange(0, all.len() as int) =~= all);
        }
        Ok(out)
    }
}

} // verus!
