//! A compiler that owns a tree and its tables and preprocesses them.

use vstd::prelude::*;
use crate::ast::{AST, ast_views};
use crate::error::{Error, ErrorKind};
use crate::gatherer::{is_directive, directives, type_pairs, define_ok, extern_ok};
use crate::aliases::{resolution, resolvable};
use crate::internal::{FunTable, TypeTable};
use crate::preprocessor::{Included, Preprocessor, included_trees, pruned, merge_included, alias_conflict};
use crate::text::owned;

verus! {

/// A tree with the tables its directives fill.
pub struct Compiler {
    pub source_file: String,
    pub ast: Vec<AST>,
    pub fun_table: FunTable,
    pub type_table: TypeTable,
}

impl Compiler {
    /// A compiler for the tree `ast` of `source_file`, with empty tables.
    pub fn new(source_file: &str, ast: Vec<AST>) -> (r: Compiler)
        ensures
            r.source_file@ == source_file@,
            r.ast == ast,
            r.fun_table.funs@.len() == 0,
            r.type_table.types@.len() == 0,
    {
        Compiler {
            source_file: owned(source_file),
            ast,
            fun_table: FunTable::new(Vec::new()),
            type_table: TypeTable::new(Vec::new()),
        }
    }

    /// Preprocesses the tree, whose included files were preprocessed into
    /// `included` (see [`Preprocessor::preprocess`]).
    pub fn compile(&mut self, included: Vec<Included>) -> (r: Result<(), Error>)
        ensures
            r is Ok ==> ast_views(final(self).ast@) == pruned(ast_views(old(self).ast@) + included_trees(included@)),
            r is Ok ==> forall|k: int| 0 <= k < final(self).ast@.len() ==> !is_directive(#[trigger] final(self).ast@[k]@),
            r matches Err(e) ==> e.kind == ErrorKind::TypeAlias || e.kind == ErrorKind::Directive,
            ({
                let all = ast_views(old(self).ast@) + included_trees(included@);
                r is Ok <==> {
                    &&& merge_included(old(self).type_table.types@, included@) matches Some(x)
                    &&& type_pairs(all) matches Some(ps)
                    &&& resolvable(ps)
                    &&& !alias_conflict(x, resolution(ps)->0)
                    &&& forall|k: int| 0 <= k < directives(all, "&define"@).len()
                        ==> define_ok(#[trigger] directives(all, "&define"@)[k], final(self).type_table)
                    &&& forall|k: int| 0 <= k < directives(all, "&extern"@).len()
                        ==> extern_ok(#[trigger] directives(all, "&extern"@)[k])
                }
            }),
    {
        let preprocessor = Preprocessor::new(self.source_file.as_str());
        preprocessor.preprocess(&mut self.ast, &mut self.fun_table, &mut self.type_table, included)
    }
}

} // verus!
