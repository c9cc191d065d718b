//! The preprocessor: runs the gatherers over a file's tree, fills the
//! tables, and prunes the directives from the tree.

use vstd::prelude::*;
use crate::ast::{AST, AstV, ast_views};
use crate::error::{Error, ErrorKind};
use crate::gatherer::{
    ExternGatherer, FunGatherer, TypeGatherer, declares, defines, directives, is_directive,
    is_directive_word,
};
use crate::internal::{FunTable, Function, Type, TypeTable, merge_spec, same_types, same_type, conflicting, fresh_types, lemma_same_merge};
use crate::aliases::{flat, resolution, resolvable};
use crate::gatherer::{type_pairs, define_ok, extern_ok};
use crate::text::owned;

verus! {

/// A file that the tree includes, already preprocessed: its tree and the
/// tables it filled.
pub struct Included {
    pub ast: Vec<AST>,
    pub fun_table: FunTable,
    pub type_table: TypeTable,
}

/// The trees of the included files, one after another.
pub open spec fn included_trees(incs: Seq<Included>) -> Seq<AstV>
    decreases incs.len(),
{
    if incs.len() == 0 {
        Seq::empty()
    } else {
        included_trees(incs.drop_last()) + ast_views(incs.last().ast@)
    }
}

/// The functions of the included files, one table after another.
pub open spec fn included_funs(incs: Seq<Included>) -> Seq<Function>
    decreases incs.len(),
{
    if incs.len() == 0 {
        Seq::empty()
    } else {
        included_funs(incs.drop_last()) + incs.last().fun_table.funs@
    }
}

/// The type table after merging the tables of the included files, one
/// after another; `None` where a merge conflicts.
pub open spec fn merge_included(ts: Seq<Type>, incs: Seq<Included>) -> Option<Seq<Type>>
    decreases incs.len(),
{
    if incs.len() == 0 {
        Some(ts)
    } else {
        match merge_included(ts, incs.drop_last()) {
            None => None,
            Some(x) => merge_spec(x, incs.last().type_table.types@),
        }
    }
}

proof fn lemma_merge_included_none(ts: Seq<Type>, incs: Seq<Included>, m: int, n: int)
    requires
        0 <= m <= n <= incs.len(),
        merge_included(ts, incs.subrange(0, m)) is None,
    ensures
        merge_included(ts, incs.subrange(0, n)) is None,
    decreases n - m,
{
    if m < n {
        lemma_merge_included_none(ts, incs, m, n - 1);
        assert(incs.subrange(0, n).drop_last() =~= incs.subrange(0, n - 1));
    }
}

/// Whether the table `x` holds an alias of a name that the aliases `m`
/// point elsewhere.
pub open spec fn alias_conflict(x: Seq<Type>, m: Seq<(Seq<char>, Seq<char>)>) -> bool {
    exists|k: int, j: int| 0 <= k < m.len() && 0 <= j < x.len() && #[trigger] x[j] is TypeDef
        && x[j]->TypeDef_0@ == m[k].0 && x[j]->TypeDef_1@ != #[trigger] m[k].1
}

proof fn lemma_alias_conflict(x: Seq<Type>, t: Seq<Type>, m: Seq<(Seq<char>, Seq<char>)>)
    requires
        flat(t, m),
    ensures
        merge_spec(x, t) is None <==> alias_conflict(x, m),
{
    if exists|i: int, j: int| 0 <= i < t.len() && 0 <= j < x.len() && #[trigger] conflicting(t[i], x[j]) {
        let (i, j) = choose|i: int, j: int| 0 <= i < t.len() && 0 <= j < x.len() && #[trigger] conflicting(t[i], x[j]);
        assert(i >= 3);
        assert(t[3 + (i - 3)] is TypeDef);
        assert(x[j] is TypeDef && x[j]->TypeDef_0@ == m[i - 3].0 && x[j]->TypeDef_1@ != m[i - 3].1);
    }
    if alias_conflict(x, m) {
        let (k, j) = choose|k: int, j: int| 0 <= k < m.len() && 0 <= j < x.len() && #[trigger] x[j] is TypeDef
            && x[j]->TypeDef_0@ == m[k].0 && x[j]->TypeDef_1@ != #[trigger] m[k].1;
        assert(t[3 + k] is TypeDef);
        assert(conflicting(t[3 + k], x[j]));
    }
}

proof fn lemma_same_conflict(a: Seq<Type>, b: Seq<Type>, m: Seq<(Seq<char>, Seq<char>)>)
    requires
        same_types(a, b),
    ensures
        alias_conflict(a, m) == alias_conflict(b, m),
{
    if alias_conflict(a, m) {
        let (k, j) = choose|k: int, j: int| 0 <= k < m.len() && 0 <= j < a.len() && #[trigger] a[j] is TypeDef
            && a[j]->TypeDef_0@ == m[k].0 && a[j]->TypeDef_1@ != #[trigger] m[k].1;
        assert(same_type(a[j], b[j]));
        assert(b[j] is TypeDef);
    }
    if alias_conflict(b, m) {
        let (k, j) = choose|k: int, j: int| 0 <= k < m.len() && 0 <= j < b.len() && #[trigger] b[j] is TypeDef
            && b[j]->TypeDef_0@ == m[k].0 && b[j]->TypeDef_1@ != #[trigger] m[k].1;
        assert(same_type(a[j], b[j]));
        assert(a[j] is TypeDef);
    }
}

proof fn lemma_same_trans(a: Seq<Type>, b: Seq<Type>, c: Seq<Type>)
    requires
        same_types(a, b),
        same_types(b, c),
    ensures
        same_types(a, c),
{
    assert forall|i: int| 0 <= i < a.len() implies same_type(#[trigger] a[i], c[i]) by {
        assert(same_type(a[i], b[i]));
        assert(same_type(b[i], c[i]));
    }
}

/// The nodes that are not directives, in order.
pub open spec fn pruned(s: Seq<AstV>) -> Seq<AstV>
    decreases s.len(),
{
    if s.len() == 0 {
        s
    } else if is_directive(s.last()) {
        pruned(s.drop_last())
    } else {
        pruned(s.drop_last()).push(s.last())
    }
}

/// Pruning the directives from a tree that has none leaves it as it is.
pub proof fn lemma_prune_none(s: Seq<AstV>)
    requires
        forall|k: int| 0 <= k < s.len() ==> !is_directive(#[trigger] s[k]),
    ensures
        pruned(s) == s,
    decreases s.len(),
{
    if s.len() > 0 {
        let t = s.drop_last();
        assert forall|k: int| 0 <= k < t.len() implies !is_directive(#[trigger] t[k]) by {
            assert(t[k] == s[k]);
        }
        lemma_prune_none(t);
        assert(!is_directive(s[s.len() - 1]));
        assert(pruned(s) == pruned(t).push(s.last()));
        assert(t.push(s.last()) =~= s);
    }
}

/// No node that pruning keeps is a directive.
pub proof fn lemma_pruned_clean(s: Seq<AstV>)
    ensures
        forall|k: int| 0 <= k < pruned(s).len() ==> !is_directive(#[trigger] pruned(s)[k]),
    decreases s.len(),
{
    if s.len() > 0 {
        lemma_pruned_clean(s.drop_last());
        let p = pruned(s.drop_last());
        if !is_directive(s.last()) {
            assert forall|k: int| 0 <= k < pruned(s).len() implies !is_directive(#[trigger] pruned(s)[k]) by {
                if k < p.len() {
                    assert(pruned(s)[k] == p[k]);
                }
            }
        }
    }
}

/// Pruning is idempotent: a pruned tree prunes to itself.
pub proof fn lemma_prune_idempotent(s: Seq<AstV>)
    ensures
        pruned(pruned(s)) == pruned(s),
{
    lemma_pruned_clean(s);
    lemma_prune_none(pruned(s));
}

/// A tree without directives makes no aliases.
pub proof fn lemma_no_type_pairs(s: Seq<AstV>)
    requires
        forall|k: int| 0 <= k < s.len() ==> !is_directive(#[trigger] s[k]),
    ensures
        type_pairs(s) == Some(Seq::<(Seq<char>, Seq<char>)>::empty()),
    decreases s.len(),
{
    if s.len() > 0 {
        assert(!is_directive(s[s.len() - 1]));
        assert forall|k: int| 0 <= k < s.len() - 1 implies !is_directive(#[trigger] s.drop_last()[k]) by {
            assert(s.drop_last()[k] == s[k]);
        }
        lemma_no_type_pairs(s.drop_last());
        reveal_strlit("&type");
        reveal_strlit("&define");
        reveal_strlit("&extern");
        reveal_strlit("&include");
    }
}

/// A tree without directives has no directives of any kind to gather.
pub proof fn lemma_no_directives(s: Seq<AstV>, kw: Seq<char>)
    requires
        is_directive_word(kw),
        forall|k: int| 0 <= k < s.len() ==> !is_directive(#[trigger] s[k]),
    ensures
        directives(s, kw).len() == 0,
    decreases s.len(),
{
    if s.len() > 0 {
        assert(!is_directive(s[s.len() - 1]));
        lemma_no_directives(s.drop_last(), kw);
    }
}

/// Removes the directives from the top level of `ast`.
pub fn prune_directives(ast: &mut Vec<AST>)
    ensures
        ast_views(final(ast)@) == pruned(ast_views(old(ast)@)),
{
    let ghost all = ast_views(ast@);
    let mut rest: Vec<AST> = Vec::new();
    std::mem::swap(ast, &mut rest);
    let mut kept: Vec<AST> = Vec::new();
    let mut i: usize = 0;
    while i < rest.len()
        invariant
            i <= rest@.len(),
            all == ast_views(rest@),
            ast_views(kept@) == pruned(all.subrange(0, i as int)),
        decreases rest.len() - i,
    {
        let node = &rest[i];
        let mut keep = true;
        if node.is_expr() {
            let exprs = node.exprs();
            proof {
                crate::ast::lemma_expr_view(node->Expr_0, *exprs);
            }
            if exprs.len() > 0 {
                let first = &exprs[0];
                if first.is_identifier() && crate::gatherer::is_builtin(first.identifier()) {
                    keep = false;
                }
            }
        }
        proof {
            assert(all.subrange(0, i as int + 1).drop_last() =~= all.subrange(0, i as int));
            assert(all.subrange(0, i as int + 1).last() == rest@[i as int]@);
            assert(keep == !is_directive(rest@[i as int]@));
        }
        proof {
            let x = all.subrange(0, i as int + 1);
            if keep {
                assert(pruned(x) == pruned(x.drop_last()).push(x.last()));
            } else {
                assert(pruned(x) == pruned(x.drop_last()));
            }
        }
        if keep {
            let c = rest[i].clone();
            kept.push(c);
            assert(ast_views(kept@) =~= ast_views(kept@.drop_last()).push(c@));
        }
        i = i + 1;
    }
    proof {
        assert(all.subrange(0, all.len() as int) =~= all);
    }
    *ast = kept;
}

/// Runs the gatherers over one file's tree.
pub struct Preprocessor {
    pub source_file: String,
}

impl Preprocessor {
    pub fn new(source_file: &str) -> (r: Preprocessor)
        ensures
            r.source_file@ == source_file@,
    {
        Preprocessor { source_file: owned(source_file) }
    }

    /// Preprocesses `ast`, whose included files were preprocessed into
    /// `included`: appends their trees, merges their tables, resolves the
    /// type aliases, gathers the functions and external functions, and
    /// prunes the directives.
    pub fn preprocess(
        &self,
        ast: &mut Vec<AST>,
        fun_table: &mut FunTable,
        type_table: &mut TypeTable,
        included: Vec<Included>,
    ) -> (r: Result<(), Error>)
        ensures
            ({
                let all = ast_views(old(ast)@) + included_trees(included@);
                let defs = directives(all, "&define"@);
                let exts = directives(all, "&extern"@);
                let base = old(fun_table).funs@.len() + included_funs(included@).len();
                r is Ok ==> {
                    &&& ast_views(final(ast)@) == pruned(all)
                    &&& final(fun_table).funs@.len() == base + defs.len() + exts.len()
                    &&& final(fun_table).funs@.subrange(0, base as int)
                        == old(fun_table).funs@ + included_funs(included@)
                    &&& forall|k: int| 0 <= k < defs.len()
                        ==> defines(defs[k], *final(type_table), #[trigger] final(fun_table).funs@[base + k])
                    &&& forall|k: int| 0 <= k < exts.len()
                        ==> declares(exts[k], #[trigger] final(fun_table).funs@[base + defs.len() + k])
                }
            }),
            r matches Err(e) ==> e.kind == ErrorKind::TypeAlias || e.kind == ErrorKind::Directive,
            ({
                let all = ast_views(old(ast)@) + included_trees(included@);
                r is Ok <==> {
                    &&& merge_included(old(type_table).types@, included@) matches Some(x)
                    &&& type_pairs(all) matches Some(ps)
                    &&& resolvable(ps)
                    &&& !alias_conflict(x, resolution(ps)->0)
                    &&& forall|k: int| 0 <= k < directives(all, "&define"@).len()
                        ==> define_ok(#[trigger] directives(all, "&define"@)[k], *final(type_table))
                    &&& forall|k: int| 0 <= k < directives(all, "&extern"@).len()
                        ==> extern_ok(#[trigger] directives(all, "&extern"@)[k])
                }
            }),
            r is Ok ==> (merge_included(old(type_table).types@, included@) matches Some(x)
                && same_types(final(type_table).types@.subrange(0, x.len() as int), x)),
            r is Ok ==> forall|k: int| 0 <= k < final(ast)@.len() ==> !is_directive(#[trigger] final(ast)@[k]@),
            included@.len() == 0 && (forall|k: int| 0 <= k < old(ast)@.len() ==> !is_directive(#[trigger] old(ast)@[k]@))
                ==> r is Ok && ast_views(final(ast)@) == ast_views(old(ast)@) && final(fun_table).funs@ == old(fun_table).funs@
                    && same_types(final(type_table).types@.subrange(0, old(type_table).types@.len() as int), old(type_table).types@),
    {
        let ghost ast0 = ast_views(ast@);
        let ghost raw0 = ast@;
        proof {
            if included@.len() == 0 && (forall|k: int| 0 <= k < raw0.len() ==> !is_directive(#[trigger] raw0[k]@)) {
                assert forall|k: int| 0 <= k < ast0.len() implies !is_directive(#[trigger] ast0[k]) by {
                    assert(ast0[k] == raw0[k]@);
                }
                let all = ast0 + included_trees(included@);
                assert(all =~= ast0);
                lemma_no_type_pairs(all);
                lemma_no_directives(all, "&define"@);
                lemma_no_directives(all, "&extern"@);
                assert(included@.subrange(0, 0) =~= included@);
                assert(merge_included(old(type_table).types@, included@) == Some(old(type_table).types@));
                assert(crate::aliases::all_indices(0) =~= Seq::<int>::empty());
                assert(resolvable(Seq::<(Seq<char>, Seq<char>)>::empty()));
                reveal_strlit("&define");
                reveal_strlit("&extern");
                reveal_strlit("&type");
                reveal_strlit("&include");
            }
        }
        let ghost funs0 = fun_table.funs@;
        let mut incs = included;
        let ghost incs0 = incs@;
        let ghost tt0 = type_table.types@;
        let ghost mut n: int = 0;
        proof {
            assert(incs0.subrange(0, 0) =~= Seq::<Included>::empty());
            assert(same_types(type_table.types@, tt0));
        }
        while incs.len() > 0
            invariant
                merge_included(tt0, incs0.subrange(0, n as int)) matches Some(x) && same_types(type_table.types@, x),
                tt0 == old(type_table).types@,
                incs0 == included@,
                ast0 == ast_views(old(ast)@),
                0 <= n,
                n + incs@.len() == incs0.len(),
                incs@ == incs0.subrange(n as int, incs0.len() as int),
                ast_views(ast@) == ast0 + included_trees(incs0.subrange(0, n as int)),
                fun_table.funs@ == funs0 + included_funs(incs0.subrange(0, n as int)),
            decreases incs@.len(),
        {
            let inc = incs.remove(0);
            let mut tree = inc.ast;
            let ghost before = ast_views(ast@);
            ast.append(&mut tree);
            fun_table.merge(inc.fun_table);
            let ghost ot = inc.type_table.types@;
            let ghost cur = type_table.types@;
            let ghost x = merge_included(tt0, incs0.subrange(0, n as int))->0;
            proof {
                assert(incs0.subrange(0, n as int + 1).drop_last() =~= incs0.subrange(0, n as int));
                assert(incs0.subrange(0, n as int + 1).last() == inc);
                assert(incs0[n as int] == inc);
                lemma_same_merge(cur, x, ot);
            }
            match type_table.merge(inc.type_table) {
                Ok(()) => {},
                Err(e) => {
                    proof {
                        lemma_merge_included_none(tt0, incs0, n + 1, incs0.len() as int);
                        assert(incs0.subrange(0, incs0.len() as int) =~= incs0);
                    }
                    return Err(e);
                },
            }
            proof {
                let y = merge_spec(x, ot)->0;
                lemma_same_trans(type_table.types@, cur + fresh_types(cur, ot), y);
                assert(ast_views(ast@) =~= before + ast_views(inc.ast@));
                assert(incs@ =~= incs0.subrange(n as int + 1, incs0.len() as int));
            }
            proof {
                n = n + 1;
            }
        }
        proof {
            assert(incs0.subrange(0, n as int) =~= incs0);
        }
        let ghost all = ast_views(ast@);
        let ghost x = merge_included(tt0, incs0)->0;
        let ghost cur = type_table.types@;
        let mut type_gatherer = TypeGatherer;
        let types = match type_gatherer.gather_and_link(ast) {
            Ok(t) => t,
            Err(e) => {
                return Err(e);
            },
        };
        let ghost ps = type_pairs(all)->0;
        proof {
            lemma_alias_conflict(cur, types.types@, resolution(ps)->0);
            lemma_same_conflict(cur, x, resolution(ps)->0);
        }
        match type_table.merge(types) {
            Ok(()) => {},
            Err(e) => {
                return Err(e);
            },
        }
        proof {
            assert forall|i: int| 0 <= i < x.len() implies same_type(#[trigger] type_table.types@.subrange(0, x.len() as int)[i], x[i]) by {
                assert(type_table.types@.subrange(0, x.len() as int)[i] == cur[i]);
                assert(same_type(cur[i], x[i]));
            }
        }
        let ghost funs1 = fun_table.funs@;
        let funs = {
            let fun_gatherer = FunGatherer::new(self.source_file.as_str(), type_table);
            match fun_gatherer.gather(ast) {
                Ok(f) => f,
                Err(e) => {
                    return Err(e);
                },
            }
        };
        fun_table.append(funs);
        let extern_gatherer = ExternGatherer::new(self.source_file.as_str());
        let externs = match extern_gatherer.gather(ast) {
            Ok(x) => x,
            Err(e) => {
                return Err(e);
            },
        };
        fun_table.append(externs);
        proof {
            assert(fun_table.funs@.subrange(0, funs1.len() as int) =~= funs1);
            assert forall|k: int| 0 <= k < directives(all, "&define"@).len() implies
                defines(directives(all, "&define"@)[k], *type_table, #[trigger] fun_table.funs@[funs1.len() + k]) by {
                assert(fun_table.funs@[funs1.len() + k] == funs@[k]);
            }
            assert forall|k: int| 0 <= k < directives(all, "&extern"@).len() implies
                declares(directives(all, "&extern"@)[k], #[trigger] fun_table.funs@[funs1.len() + directives(all, "&define"@).len() + k]) by {
                assert(fun_table.funs@[funs1.len() + funs@.len() + k] == externs@[k]);
            }
        }
        prune_directives(ast);
        proof {
            lemma_pruned_clean(all);
            assert forall|k: int| 0 <= k < ast@.len() implies !is_directive(#[trigger] ast@[k]@) by {
                assert(ast_views(ast@)[k] == ast@[k]@);
            }
            if incs0.len() == 0 && (forall|k: int| 0 <= k < raw0.len() ==> !is_directive(#[trigger] raw0[k]@)) {
                assert forall|k: int| 0 <= k < ast0.len() implies !is_directive(#[trigger] ast0[k]) by {
                    assert(ast0[k] == raw0[k]@);
                }
                assert(all =~= ast0);
                lemma_prune_none(all);
                lemma_no_directives(all, "&define"@);
                lemma_no_directives(all, "&extern"@);
                assert(fun_table.funs@ =~= funs0);
            }
        }
        Ok(())
    }
}

} // verus!
