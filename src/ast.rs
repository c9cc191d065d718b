//! The tree of S-expressions that the parser builds.

use vstd::prelude::*;
use crate::num::Num;
use crate::pos::Range;
use crate::value::{Value, ValueV, views, lemma_list_view};
use crate::num::num_text;
use crate::text::{push_char, push_str};

verus! {

/// A node of the tree, with the range of source text it came from.
#[derive(Debug)]
pub enum AST {
    Expr(Range, Vec<AST>),
    StringLit(Range, String),
    Identifier(Range, String),
    Number(Range, Num),
}

/// The content of a node, ranges left out.
pub enum AstV {
    Expr(Seq<AstV>),
    Str(Seq<char>),
    Ident(Seq<char>),
    Number(Num),
}

pub open spec fn ast_view(a: AST) -> AstV
    decreases a,
{
    match a {
        AST::Expr(_, l) => AstV::Expr(
            Seq::new(
                l@.len(),
                |i: int|
                    if 0 <= i < l@.len() {
                        ast_view(l@[i])
                    } else {
                        AstV::Number(Num { num: 0, den: 1 })
                    },
            ),
        ),
        AST::StringLit(_, s) => AstV::Str(s@),
        AST::Identifier(_, s) => AstV::Ident(s@),
        AST::Number(_, n) => AstV::Number(n),
    }
}

/// The contents of a sequence of nodes.
pub open spec fn ast_views(l: Seq<AST>) -> Seq<AstV> {
    Seq::new(l.len(), |i: int| ast_view(l[i]))
}

impl View for AST {
    type V = AstV;

    open spec fn view(&self) -> AstV {
        ast_view(*self)
    }
}

pub proof fn lemma_expr_view(r: Range, l: Vec<AST>)
    ensures
        ast_view(AST::Expr(r, l)) == AstV::Expr(ast_views(l@)),
{
    assert(ast_view(AST::Expr(r, l)) is Expr);
    assert(ast_view(AST::Expr(r, l))->Expr_0 =~= ast_views(l@));
}

/// The value a node stands for when it is data: a list for an expression,
/// a name for an identifier.
pub open spec fn ast_value(a: AstV) -> ValueV
    decreases a,
{
    match a {
        AstV::Expr(l) => ValueV::List(
            Seq::new(
                l.len(),
                |i: int|
                    if 0 <= i < l.len() {
                        ast_value(l[i])
                    } else {
                        ValueV::EndArgs
                    },
            ),
        ),
        AstV::Str(s) => ValueV::Str(s),
        AstV::Ident(s) => ValueV::Ident(s),
        AstV::Number(n) => ValueV::Number(n),
    }
}

pub open spec fn ast_range(a: AST) -> Range {
    match a {
        AST::Expr(r, _) => r,
        AST::StringLit(r, _) => r,
        AST::Identifier(r, _) => r,
        AST::Number(r, _) => r,
    }
}

impl AST {
    /// The node as a value.
    pub fn to_value(&self) -> (r: Value)
        ensures
            r@ == ast_value(self@),
        decreases self,
    {
        match self {
            AST::Expr(_, exprs) => {
                let mut out: Vec<Value> = Vec::new();
                let mut i: usize = 0;
                while i < exprs.len()
                    invariant
                        i <= exprs.len(),
                        out@.len() == i,
                        forall|k: int| 0 <= k < i ==> out@[k]@ == ast_value(exprs@[k]@),
                        self->Expr_1 == *exprs,
                        *self is Expr,
                    decreases exprs.len() - i,
                {
                    proof {
                        assert(decreases_to!(*self => self->Expr_1));
                        assert(decreases_to!(self->Expr_1 => self->Expr_1@));
                        assert(decreases_to!(self->Expr_1@ => self->Expr_1@[i as int]));
                    }
                    let v = exprs[i].to_value();
                    out.push(v);
                    i = i + 1;
                }
                proof {
                    lemma_list_view(out);
                    lemma_expr_view(self->Expr_0, *exprs);
                    let l = ast_views(exprs@);
                    assert(ast_value(AstV::Expr(l)) is List);
                    assert(ast_value(AstV::Expr(l))->List_0 =~= views(out@));
                }
                Value::List(out)
            },
            AST::StringLit(_, s) => Value::String(s.clone()),
            AST::Identifier(_, s) => Value::Identifier(s.clone()),
            AST::Number(_, n) => Value::Number(*n),
        }
    }

    pub fn range(&self) -> (r: &Range)
        ensures
            *r == ast_range(*self),
    {
        match self {
            AST::Expr(r, _) => r,
            AST::StringLit(r, _) => r,
            AST::Identifier(r, _) => r,
            AST::Number(r, _) => r,
        }
    }

    /// The name an identifier node holds.
    pub fn identifier(&self) -> (r: &str)
        requires
            self is Identifier,
        ensures
            r@ == self->Identifier_1@,
    {
        match self {
            AST::Identifier(_, s) => s.as_str(),
            _ => "",
        }
    }

    /// The children of an expression node.
    pub fn exprs(&self) -> (r: &Vec<AST>)
        requires
            self is Expr,
        ensures
            *r == self->Expr_1,
    {
        match self {
            AST::Expr(_, v) => v,
            _ => vstd::pervasive::unreached(),
        }
    }

    pub fn is_expr(&self) -> (r: bool)
        ensures
            r == (self is Expr),
    {
        match self {
            AST::Expr(_, _) => true,
            _ => false,
        }
    }

    pub fn is_identifier(&self) -> (r: bool)
        ensures
            r == (self is Identifier),
    {
        match self {
            AST::Identifier(_, _) => true,
            _ => false,
        }
    }
}

impl Clone for AST {
    /// A deep copy: the same contents and ranges.
    fn clone(&self) -> (r: AST)
        ensures
            r@ == self@,
            ast_range(r) == ast_range(*self),
        decreases self,
    {
        match self {
            AST::Expr(r, v) => {
                let mut out: Vec<AST> = Vec::new();
                let mut i: usize = 0;
                while i < v.len()
                    invariant
                        i <= v.len(),
                        out@.len() == i,
                        forall|k: int| 0 <= k < i ==> out@[k]@ == v@[k]@,
                        self->Expr_1 == *v,
                        *self is Expr,
                    decreases v.len() - i,
                {
                    proof {
                        assert(decreases_to!(*self => self->Expr_1));
                        assert(decreases_to!(self->Expr_1 => self->Expr_1@));
                        assert(decreases_to!(self->Expr_1@ => self->Expr_1@[i as int]));
                    }
                    let c = v[i].clone();
                    out.push(c);
                    i = i + 1;
                }
                proof {
                    lemma_expr_view(*r, *v);
                    lemma_expr_view(*r, out);
                    assert(ast_views(out@) =~= ast_views(v@));
                }
                AST::Expr(*r, out)
            },
            AST::StringLit(r, s) => AST::StringLit(*r, s.clone()),
            AST::Identifier(r, s) => AST::Identifier(*r, s.clone()),
            AST::Number(r, n) => AST::Number(*r, *n),
        }
    }
}

/// The indentation level of children: one deeper, up to a bound far
/// beyond any real nesting.
pub open spec fn deeper(level: nat) -> nat {
    if level + 1 < usize::MAX / 8 {
        level + 1
    } else {
        level
    }
}

/// `n` spaces.
pub open spec fn spaces(n: nat) -> Seq<char>
    decreases n,
{
    if n == 0 {
        Seq::empty()
    } else {
        spaces((n - 1) as nat).push(' ')
    }
}

/// A node printed at indentation `level`: four spaces a level; an
/// expression as `(`, each child on a line of its own one level deeper,
/// and `)`; a string in double quotes.
pub open spec fn show(a: AstV, level: nat) -> Seq<char>
    decreases a, 1nat,
{
    match a {
        AstV::Expr(l) => spaces(4 * level) + "(\n"@ + show_all(l, l.len(), deeper(level)) + spaces(4 * level) + ")"@,
        AstV::Str(s) => spaces(4 * level) + "\""@ + s + "\""@,
        AstV::Ident(s) => spaces(4 * level) + s,
        AstV::Number(n) => spaces(4 * level) + num_text(n),
    }
}

/// The first `n` children printed, each followed by a line feed.
pub open spec fn show_all(l: Seq<AstV>, n: nat, level: nat) -> Seq<char>
    decreases l, n,
{
    if n == 0 || n > l.len() {
        Seq::empty()
    } else {
        show_all(l, (n - 1) as nat, level) + show(l[n - 1], level) + "\n"@
    }
}

fn push_spaces(s: &mut String, n: usize)
    ensures
        final(s)@ == old(s)@ + spaces(n as nat),
{
    let mut i: usize = 0;
    while i < n
        invariant
            i <= n,
            s@ == old(s)@ + spaces(i as nat),
        decreases n - i,
    {
        push_char(s, ' ');
        i = i + 1;
        assert(s@ =~= old(s)@ + spaces(i as nat));
    }
}

impl AST {
    /// Prints the node at indentation `level`, after the text in `out`.
    pub fn display_recursive(&self, out: &mut String, level: usize)
        requires
            level < usize::MAX / 8,
        ensures
            final(out)@ == old(out)@ + show(self@, level as nat),
        decreases self,
    {
        let ghost before = out@;
        match self {
            AST::Expr(r, v) => {
                proof {
                    lemma_expr_view(*r, *v);
                }
                push_spaces(out, level * 4);
                push_str(out, "(\n");
                let ghost mid = out@;
                let mut i: usize = 0;
                while i < v.len()
                    invariant
                        i <= v@.len(),
                        level < usize::MAX / 8,
                        out@ == mid + show_all(ast_views(v@), i as nat, deeper(level as nat)),
                        self->Expr_1 == *v,
                        *self is Expr,
                    decreases v.len() - i,
                {
                    proof {
                        assert(decreases_to!(*self => self->Expr_1));
                        assert(decreases_to!(self->Expr_1 => self->Expr_1@));
                        assert(decreases_to!(self->Expr_1@ => self->Expr_1@[i as int]));
                    }
                    let next = if level + 1 < usize::MAX / 8 { level + 1 } else { level };
                    v[i].display_recursive(out, next);
                    push_str(out, "\n");
                    i = i + 1;
                    assert(out@ =~= mid + show_all(ast_views(v@), i as nat, deeper(level as nat)));
                }
                push_spaces(out, level * 4);
                push_str(out, ")");
                assert(out@ =~= before + show(self@, level as nat));
            },
            AST::StringLit(_, s) => {
                push_spaces(out, level * 4);
                push_str(out, "\"");
                push_str(out, s.as_str());
                push_str(out, "\"");
                assert(out@ =~= before + show(self@, level as nat));
            },
            AST::Identifier(_, s) => {
                push_spaces(out, level * 4);
                push_str(out, s.as_str());
                assert(out@ =~= before + show(self@, level as nat));
            },
            AST::Number(_, n) => {
                push_spaces(out, level * 4);
                let t = n.text();
                push_str(out, t.as_str());
                assert(out@ =~= before + show(self@, level as nat));
            },
        }
    }

    /// The node printed from indentation zero.
    pub fn display(&self) -> (r: String)
        ensures
            r@ == show(self@, 0),
    {
        let mut out = String::new();
        self.display_recursive(&mut out, 0);
        assert(out@ =~= show(self@, 0));
        out
    }
}

} // verus!
