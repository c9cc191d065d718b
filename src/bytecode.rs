//! The bytecode and the compiler that lowers a tree to it.

use vstd::prelude::*;
use crate::ast::{AST, AstV, ast_views, lemma_expr_view};
use crate::error::{Error, ErrorKind};
use crate::internal::{FunTable, Function, Param, TypeTable, fun_index};
use crate::text::{is_word, owned, push_str};
use crate::value::{Value, ValueV, views};

verus! {

/// One instruction of the machine.
#[derive(Debug)]
pub enum Bytecode {
    /// Calls a function; the count of arguments is kept for messages.
    Call(String, usize),
    /// Pushes a value onto the value stack.
    Push(Value),
    /// Pops a value into a variable of the innermost scope.
    Pop(String),
    /// Pushes the value of a variable, looked up from the innermost scope
    /// outwards.
    Load(String),
    /// Stores a value into a variable of the innermost scope.
    Store(String, Value),
    /// Opens a new scope.
    NewVarStack,
    /// Closes the innermost scope.
    PopVarStack,
    /// Skips the next `n` instructions.
    Skip(usize),
    /// Pops a value and skips the next `n` instructions if it is false.
    SkipFalse(usize),
}

/// The content of an instruction.
pub enum BytecodeV {
    Call(Seq<char>, usize),
    Push(ValueV),
    Pop(Seq<char>),
    Load(Seq<char>),
    Store(Seq<char>, ValueV),
    NewVarStack,
    PopVarStack,
    Skip(usize),
    SkipFalse(usize),
}

impl View for Bytecode {
    type V = BytecodeV;

    open spec fn view(&self) -> BytecodeV {
        match self {
            Bytecode::Call(s, n) => BytecodeV::Call(s@, *n),
            Bytecode::Push(v) => BytecodeV::Push(v@),
            Bytecode::Pop(s) => BytecodeV::Pop(s@),
            Bytecode::Load(s) => BytecodeV::Load(s@),
            Bytecode::Store(s, v) => BytecodeV::Store(s@, v@),
            Bytecode::NewVarStack => BytecodeV::NewVarStack,
            Bytecode::PopVarStack => BytecodeV::PopVarStack,
            Bytecode::Skip(n) => BytecodeV::Skip(*n),
            Bytecode::SkipFalse(n) => BytecodeV::SkipFalse(*n),
        }
    }
}

pub open spec fn code_view(c: Seq<Bytecode>) -> Seq<BytecodeV> {
    Seq::new(c.len(), |i: int| c[i]@)
}

impl Clone for Bytecode {
    fn clone(&self) -> (r: Bytecode)
        ensures
            r@ == self@,
    {
        match self {
            Bytecode::Call(s, n) => Bytecode::Call(s.clone(), *n),
            Bytecode::Push(v) => Bytecode::Push(v.clone()),
            Bytecode::Pop(s) => Bytecode::Pop(s.clone()),
            Bytecode::Load(s) => Bytecode::Load(s.clone()),
            Bytecode::Store(s, v) => Bytecode::Store(s.clone(), v.clone()),
            Bytecode::NewVarStack => Bytecode::NewVarStack,
            Bytecode::PopVarStack => Bytecode::PopVarStack,
            Bytecode::Skip(n) => Bytecode::Skip(*n),
            Bytecode::SkipFalse(n) => Bytecode::SkipFalse(*n),
        }
    }
}

/// How an instruction changes the number of open scopes.
pub open spec fn scope_delta(b: BytecodeV) -> int {
    match b {
        BytecodeV::NewVarStack => 1,
        BytecodeV::PopVarStack => -1,
        _ => 0,
    }
}

/// The net change in open scopes over a run of instructions.
pub open spec fn net(s: Seq<BytecodeV>) -> int
    decreases s.len(),
{
    if s.len() == 0 {
        0
    } else {
        net(s.drop_last()) + scope_delta(s.last())
    }
}

/// How far an instruction jumps: the count of instructions it may skip.
pub open spec fn jump_of(b: BytecodeV) -> Option<int> {
    match b {
        BytecodeV::Skip(n) => Some(n as int),
        BytecodeV::SkipFalse(n) => Some(n as int),
        _ => None,
    }
}

/// Whether the jump at `i` stays inside `s` and skips a run that opens as
/// many scopes as it closes.
pub open spec fn jump_ok(s: Seq<BytecodeV>, i: int) -> bool {
    jump_of(s[i]) matches Some(n) ==> i + 1 + n <= s.len() && net(s.subrange(i + 1, i + 1 + n)) == 0
}

/// Code whose scopes balance: as many scopes opened as closed, and every
/// jump stays inside the code and skips a balanced run. Then every path
/// through the code opens as many scopes as it closes.
pub open spec fn balanced(s: Seq<BytecodeV>) -> bool {
    net(s) == 0 && forall|i: int| 0 <= i < s.len() ==> #[trigger] jump_ok(s, i)
}

pub proof fn lemma_net_add(a: Seq<BytecodeV>, b: Seq<BytecodeV>)
    ensures
        net(a + b) == net(a) + net(b),
    decreases b.len(),
{
    if b.len() > 0 {
        lemma_net_add(a, b.drop_last());
        assert((a + b).drop_last() =~= a + b.drop_last());
    } else {
        assert(a + b =~= a);
    }
}

pub proof fn lemma_net_split(s: Seq<BytecodeV>, i: int, j: int, k: int)
    requires
        0 <= i <= j <= k <= s.len(),
    ensures
        net(s.subrange(i, k)) == net(s.subrange(i, j)) + net(s.subrange(j, k)),
{
    lemma_net_add(s.subrange(i, j), s.subrange(j, k));
    assert(s.subrange(i, j) + s.subrange(j, k) =~= s.subrange(i, k));
}

/// Joining two balanced runs gives a balanced run.
pub proof fn lemma_balanced_add(a: Seq<BytecodeV>, b: Seq<BytecodeV>)
    requires
        balanced(a),
        balanced(b),
    ensures
        balanced(a + b),
{
    lemma_net_add(a, b);
    let s = a + b;
    assert forall|i: int| 0 <= i < s.len() implies #[trigger] jump_ok(s, i) by {
        if i < a.len() {
            assert(s[i] == a[i]);
            assert(jump_ok(a, i));
            if let Some(n) = jump_of(a[i]) {
                assert(s.subrange(i + 1, i + 1 + n) =~= a.subrange(i + 1, i + 1 + n));
            }
        } else {
            let j = i - a.len();
            assert(s[i] == b[j]);
            assert(jump_ok(b, j));
            if let Some(n) = jump_of(b[j]) {
                assert(s.subrange(i + 1, i + 1 + n) =~= b.subrange(j + 1, j + 1 + n));
            }
        }
    }
}

pub proof fn lemma_net_single(b: BytecodeV)
    ensures
        net(seq![b]) == scope_delta(b),
{
    assert(seq![b].drop_last() =~= Seq::<BytecodeV>::empty());
    assert(net(Seq::<BytecodeV>::empty()) == 0);
    assert(seq![b].last() == b);
    assert(net(seq![b]) == net(seq![b].drop_last()) + scope_delta(seq![b].last()));
}

/// A single instruction that neither jumps nor opens or closes a scope is
/// balanced.
pub proof fn lemma_balanced_plain(b: BytecodeV)
    requires
        scope_delta(b) == 0,
        jump_of(b) is None,
    ensures
        balanced(seq![b]),
{
    lemma_net_single(b);
    assert(jump_ok(seq![b], 0));
}

/// The code of `(if c t e)`: `c`, a jump over `t` and the jump after it
/// where `c` is false, `t`, a jump over `e`, and `e`.
pub open spec fn if_code(c: Seq<BytecodeV>, t: Seq<BytecodeV>, e: Seq<BytecodeV>) -> Seq<BytecodeV> {
    c + seq![BytecodeV::SkipFalse((t.len() + 1) as usize)] + t + seq![BytecodeV::Skip(e.len() as usize)] + e
}

pub proof fn lemma_balanced_if(c: Seq<BytecodeV>, t: Seq<BytecodeV>, e: Seq<BytecodeV>)
    requires
        balanced(c),
        balanced(t),
        balanced(e),
        t.len() + 1 <= usize::MAX,
        e.len() <= usize::MAX,
    ensures
        balanced(if_code(c, t, e)),
{
    let sf = seq![BytecodeV::SkipFalse((t.len() + 1) as usize)];
    let sk = seq![BytecodeV::Skip(e.len() as usize)];
    lemma_net_single(BytecodeV::SkipFalse((t.len() + 1) as usize));
    lemma_net_single(BytecodeV::Skip(e.len() as usize));
    lemma_net_add(t, sk);
    lemma_net_add(c, sf);
    lemma_net_add(c + sf, t);
    lemma_net_add(c + sf + t, sk);
    lemma_net_add(c + sf + t + sk, e);
    let s = if_code(c, t, e);
    assert(net(s) == 0);
    lemma_net_add(sf, t);
    assert forall|i: int| 0 <= i < s.len() implies #[trigger] jump_ok(s, i) by {
        let cl = c.len() as int;
        let tl = t.len() as int;
        if i < cl {
            assert(s[i] == c[i]);
            assert(jump_ok(c, i));
            if let Some(n) = jump_of(c[i]) {
                assert(s.subrange(i + 1, i + 1 + n) =~= c.subrange(i + 1, i + 1 + n));
            }
        } else if i == cl {
            assert(s[i] == BytecodeV::SkipFalse((t.len() + 1) as usize));
            assert(s.subrange(i + 1, i + 1 + tl + 1) =~= t + sk);
            assert(net(t + sk) == 0);
        } else if i < cl + 1 + tl {
            let j = i - cl - 1;
            assert(s[i] == t[j]);
            assert(jump_ok(t, j));
            if let Some(n) = jump_of(t[j]) {
                assert(s.subrange(i + 1, i + 1 + n) =~= t.subrange(j + 1, j + 1 + n));
            }
        } else if i == cl + 1 + tl {
            assert(s[i] == BytecodeV::Skip(e.len() as usize));
            assert(s.subrange(i + 1, i + 1 + e.len()) =~= e);
        } else {
            let j = i - cl - 2 - tl;
            assert(s[i] == e[j]);
            assert(jump_ok(e, j));
            if let Some(n) = jump_of(e[j]) {
                assert(s.subrange(i + 1, i + 1 + n) =~= e.subrange(j + 1, j + 1 + n));
            }
        }
    }
}

/// A balanced run enclosed in a new scope and its close is balanced.
pub proof fn lemma_balanced_scope(x: Seq<BytecodeV>)
    requires
        balanced(x),
    ensures
        balanced(seq![BytecodeV::NewVarStack] + x + seq![BytecodeV::PopVarStack]),
{
    let o = seq![BytecodeV::NewVarStack];
    let p = seq![BytecodeV::PopVarStack];
    lemma_net_single(BytecodeV::NewVarStack);
    lemma_net_single(BytecodeV::PopVarStack);
    lemma_net_add(o, x);
    lemma_net_add(o + x, p);
    let s = o + x + p;
    assert forall|i: int| 0 <= i < s.len() implies #[trigger] jump_ok(s, i) by {
        if 1 <= i < 1 + x.len() {
            let j = i - 1;
            assert(s[i] == x[j]);
            assert(jump_ok(x, j));
            if let Some(n) = jump_of(x[j]) {
                assert(s.subrange(i + 1, i + 1 + n) =~= x.subrange(j + 1, j + 1 + n));
            }
        }
    }
}

/// The names of the intrinsic functions.
pub open spec fn is_intrinsic_name(n: Seq<char>) -> bool {
    n == "stdopen"@ || n == "stdclose"@ || n == "stdwrite"@ || n == "stdread"@ || n == "+"@ || n == "-"@
        || n == "*"@ || n == "/"@ || n == "car"@ || n == "cdr"@ || n == "nil?"@ || n == "list"@
        || n == "append"@ || n == "string"@ || n == "="@
}

/// Whether `name` names an intrinsic function.
pub fn is_intrinsic(name: &str) -> (r: bool)
    ensures
        r == is_intrinsic_name(name@),
{
    let n = owned(name);
    is_word(&n, "stdopen") || is_word(&n, "stdclose") || is_word(&n, "stdwrite") || is_word(&n, "stdread")
        || is_word(&n, "+") || is_word(&n, "-") || is_word(&n, "*") || is_word(&n, "/")
        || is_word(&n, "car") || is_word(&n, "cdr") || is_word(&n, "nil?") || is_word(&n, "list")
        || is_word(&n, "append") || is_word(&n, "string") || is_word(&n, "=")
}

/// The number of parameters before the first optional one: the fewest
/// arguments a call may pass.
pub open spec fn leading_required(ps: Seq<Param>) -> nat
    decreases ps.len(),
{
    if ps.len() == 0 || ps[0].optional {
        0
    } else {
        1 + leading_required(ps.subrange(1, ps.len() as int))
    }
}

proof fn lemma_leading_required(ps: Seq<Param>, i: int)
    requires
        0 <= i <= ps.len(),
        forall|k: int| 0 <= k < i ==> !(#[trigger] ps[k]).optional,
        i == ps.len() || ps[i].optional,
    ensures
        leading_required(ps) == i,
    decreases i,
{
    if i > 0 {
        let rest = ps.subrange(1, ps.len() as int);
        assert forall|k: int| 0 <= k < i - 1 implies !(#[trigger] rest[k]).optional by {
            assert(rest[k] == ps[k + 1]);
        }
        if i < ps.len() {
            assert(rest[i - 1] == ps[i]);
        }
        lemma_leading_required(rest, i - 1);
    }
}

/// For a parameter list of `m` required parameters followed by `k`
/// optional ones, a call may pass from `m` to `m + k` arguments.
pub proof fn lemma_arity_bounds(ps: Seq<Param>, m: nat, k: nat)
    requires
        ps.len() == m + k,
        forall|i: int| 0 <= i < m ==> !(#[trigger] ps[i]).optional,
        forall|i: int| m <= i < m + k ==> (#[trigger] ps[i]).optional,
    ensures
        leading_required(ps) == m,
        ps.len() == m + k,
{
    lemma_leading_required(ps, m as int);
}

/// The name at the head of a call, where it is a name or a string.
pub open spec fn call_head(a: AstV) -> Option<Seq<char>> {
    match a {
        AstV::Expr(l) => if l.len() > 0 {
            match l[0] {
                AstV::Ident(n) => Some(n),
                AstV::Str(n) => Some(n),
                _ => None,
            }
        } else {
            None
        },
        _ => None,
    }
}

/// The user function that the call `a` calls, and its count of arguments:
/// a call headed by a name that is neither a special form nor an
/// intrinsic, and that the table defines.
pub open spec fn user_call(a: AstV, ft: FunTable) -> Option<(Function, int)> {
    match call_head(a) {
        Some(n) => if n != "let"@ && n != "list"@ && n != "if"@ && !is_intrinsic_name(n) {
            match fun_index(ft.funs@, n) {
                Some(i) => Some((ft.funs@[i], a->Expr_0.len() - 1)),
                None => None,
            }
        } else {
            None
        },
        None => None,
    }
}

/// Whether a call with `c` arguments fits the parameters of `f`.
pub open spec fn arity_fits(f: Function, c: int) -> bool {
    leading_required(f.params@) <= c <= f.params@.len()
}

pub open spec fn is_compile_failure(e: Error) -> bool {
    e.kind == ErrorKind::Compile || e.kind == ErrorKind::Arity || e.kind == ErrorKind::UnknownFunction
}

/// The code a top-level node lowers to, `None` where it does not compile:
/// a call for an expression, a push for a string or number, a load for a
/// name.
pub open spec fn lower_node(a: AstV, ft: FunTable) -> Option<Seq<BytecodeV>>
    decreases a, 3nat, 0int,
{
    match a {
        AstV::Expr(_) => lower_expr(a, ft),
        AstV::Str(s) => Some(seq![BytecodeV::Push(ValueV::Str(s))]),
        AstV::Ident(s) => Some(seq![BytecodeV::Load(s)]),
        AstV::Number(n) => Some(seq![BytecodeV::Push(ValueV::Number(n))]),
    }
}

/// The code of the nodes `l[from..n]`, one after another.
pub open spec fn lower_seq(l: Seq<AstV>, from: int, n: int, ft: FunTable) -> Option<Seq<BytecodeV>>
    decreases l, 0nat, n,
{
    if from < 0 || n <= from || n > l.len() {
        Some(Seq::empty())
    } else {
        match lower_seq(l, from, n - 1, ft) {
            Some(x) => match lower_node(l[n - 1], ft) {
                Some(y) => Some(x + y),
                None => None,
            },
            None => None,
        }
    }
}

/// The code of the nodes `l[k-1], l[k-2], ..., l[1]`: last first.
pub open spec fn lower_rev(l: Seq<AstV>, k: int, ft: FunTable) -> Option<Seq<BytecodeV>>
    decreases l, 0nat, k,
{
    if k <= 1 || k > l.len() {
        Some(Seq::empty())
    } else {
        match lower_node(l[k - 1], ft) {
            Some(y) => match lower_rev(l, k - 1, ft) {
                Some(x) => Some(y + x),
                None => None,
            },
            None => None,
        }
    }
}

/// The code of the first `n` bindings of a `let`: a call's result popped
/// into the name, or a literal stored.
pub open spec fn lower_binds(sets: Seq<AstV>, n: int, ft: FunTable) -> Option<Seq<BytecodeV>>
    decreases sets, 0nat, n,
{
    if n <= 0 || n > sets.len() {
        Some(Seq::empty())
    } else {
        match lower_binds(sets, n - 1, ft) {
            Some(x) => {
                let set = sets[n - 1];
                if set is Expr && set->Expr_0.len() == 2 && set->Expr_0[0] is Ident {
                    let name = set->Expr_0[0]->Ident_0;
                    let value = set->Expr_0[1];
                    if value is Expr {
                        match lower_expr(value, ft) {
                            Some(y) => Some(x + y + seq![BytecodeV::Pop(name)]),
                            None => None,
                        }
                    } else {
                        Some(x + seq![BytecodeV::Store(name, crate::ast::ast_value(value))])
                    }
                } else {
                    None
                }
            },
            None => None,
        }
    }
}

/// The code of an expression node: see [`ToBytecode::expr_to_bytecode`].
pub open spec fn lower_expr(a: AstV, ft: FunTable) -> Option<Seq<BytecodeV>>
    decreases a, 2nat, 0int,
{
    match a {
        AstV::Expr(l) => if l.len() == 0 {
            Some(seq![BytecodeV::Push(ValueV::List(Seq::empty()))])
        } else if l[0] is Expr || l[0] is Number {
            None
        } else {
            let name = if l[0] is Ident { l[0]->Ident_0 } else { l[0]->Str_0 };
            if name == "let"@ {
                if !(l[0] is Ident) || l.len() < 2 || !(l[1] is Expr) {
                    None
                } else {
                    match (lower_binds(l[1]->Expr_0, l[1]->Expr_0.len() as int, ft), lower_seq(l, 2, l.len() as int, ft)) {
                        (Some(b), Some(body)) => Some(seq![BytecodeV::NewVarStack] + b + body + seq![BytecodeV::PopVarStack]),
                        _ => None,
                    }
                }
            } else if name == "list"@ {
                if !(l[0] is Ident) {
                    None
                } else {
                    match lower_rev(l, l.len() as int, ft) {
                        Some(items) => if items.len() >= i64::MAX {
                            None
                        } else {
                            Some(seq![BytecodeV::Push(ValueV::EndArgs)] + items + seq![
                                BytecodeV::Push(ValueV::StartArgs(items.len() as i64)),
                                BytecodeV::Call("list"@, 0),
                            ])
                        },
                        None => None,
                    }
                }
            } else if name == "if"@ {
                if !(l[0] is Ident) || l.len() != 4 {
                    None
                } else {
                    match (lower_node(l[1], ft), lower_node(l[2], ft), lower_node(l[3], ft)) {
                        (Some(c), Some(t), Some(e)) => if t.len() >= usize::MAX - 1 || e.len() >= usize::MAX - 1 {
                            None
                        } else {
                            Some(if_code(c, t, e))
                        },
                        _ => None,
                    }
                }
            } else if !is_intrinsic_name(name) && fun_index(ft.funs@, name) is None {
                None
            } else if !is_intrinsic_name(name) && !arity_fits(ft.funs@[fun_index(ft.funs@, name)->0], l.len() - 1) {
                None
            } else {
                match lower_seq(l, 1, l.len() as int, ft) {
                    Some(args) => Some(args.push(BytecodeV::Call(name, (l.len() - 1) as usize))),
                    None => None,
                }
            }
        },
        _ => None,
    }
}

/// Whether a compiler result is the code `spec` gives, or an error where
/// it gives none.
pub open spec fn lowers_to(r: Result<Vec<Bytecode>, Error>, spec: Option<Seq<BytecodeV>>) -> bool {
    match spec {
        Some(c) => r matches Ok(x) && code_view(x@) == c,
        None => r is Err,
    }
}

proof fn lemma_seq_none(l: Seq<AstV>, from: int, m: int, n: int, ft: FunTable)
    requires
        0 <= from <= m <= n <= l.len(),
        lower_seq(l, from, m, ft) is None,
    ensures
        lower_seq(l, from, n, ft) is None,
    decreases n - m,
{
    if m < n {
        lemma_seq_none(l, from, m, n - 1, ft);
    }
}

proof fn lemma_binds_none(sets: Seq<AstV>, m: int, n: int, ft: FunTable)
    requires
        0 <= m <= n <= sets.len(),
        lower_binds(sets, m, ft) is None,
    ensures
        lower_binds(sets, n, ft) is None,
    decreases n - m,
{
    if m < n {
        lemma_binds_none(sets, m, n - 1, ft);
    }
}

/// Lowers a tree to bytecode, with read access to the tables.
pub struct ToBytecode<'a> {
    pub fun_table: &'a FunTable,
    pub type_table: &'a TypeTable,
}

impl<'a> ToBytecode<'a> {
    pub fn new(fun_table: &'a FunTable, type_table: &'a TypeTable) -> (r: ToBytecode<'a>)
        ensures
            r.fun_table == fun_table,
            r.type_table == type_table,
    {
        ToBytecode { fun_table, type_table }
    }

    /// Lowers a sequence of top-level nodes, one after another: an
    /// expression as a call, a string or number as a push, a name as a load.
    pub fn to_bytecode(&self, ast: &Vec<AST>) -> (r: Result<Vec<Bytecode>, Error>)
        ensures
            lowers_to(r, lower_seq(ast_views(ast@), 0, ast@.len() as int, *self.fun_table)),
            r matches Ok(c) ==> balanced(code_view(c@)),
            r matches Err(e) ==> is_compile_failure(e),
    {
        self.nodes_to_bytecode(ast, 0)
    }

    /// Lowers the nodes `nodes[start..]`.
    fn nodes_to_bytecode(&self, nodes: &Vec<AST>, start: usize) -> (r: Result<Vec<Bytecode>, Error>)
        ensures
            lowers_to(r, lower_seq(ast_views(nodes@), start as int, nodes@.len() as int, *self.fun_table)),
            r matches Ok(c) ==> balanced(code_view(c@)),
            r matches Err(e) ==> is_compile_failure(e),
        decreases nodes, 0nat,
    {
        let ghost l = ast_views(nodes@);
        let mut code: Vec<Bytecode> = Vec::new();
        let mut i: usize = start;
        proof {
            assert(code_view(code@) =~= Seq::<BytecodeV>::empty());
            assert(net(Seq::<BytecodeV>::empty()) == 0);
        }
        if start >= nodes.len() {
            return Ok(code);
        }
        while i < nodes.len()
            invariant
                balanced(code_view(code@)),
                start <= i <= nodes@.len(),
                l == ast_views(nodes@),
                lower_seq(l, start as int, i as int, *self.fun_table) == Some(code_view(code@)),
            decreases nodes.len() - i,
        {
            proof {
                assert(decreases_to!(nodes => nodes@));
                assert(decreases_to!(nodes@ => nodes@[i as int]));
                assert(l[i as int] == nodes@[i as int]@);
            }
            let mut part = match self.node_to_bytecode(&nodes[i]) {
                Ok(p) => p,
                Err(e) => {
                    proof {
                        lemma_seq_none(l, start as int, i as int + 1, l.len() as int, *self.fun_table);
                    }
                    return Err(e);
                },
            };
            let ghost before = code_view(code@);
            let ghost pv = code_view(part@);
            proof {
                lemma_balanced_add(before, pv);
            }
            code.append(&mut part);
            assert(code_view(code@) =~= before + pv);
            i = i + 1;
        }
        Ok(code)
    }

    /// Lowers one top-level node.
    fn node_to_bytecode(&self, node: &AST) -> (r: Result<Vec<Bytecode>, Error>)
        ensures
            lowers_to(r, lower_node(node@, *self.fun_table)),
            r matches Ok(c) ==> balanced(code_view(c@)),
            r matches Err(e) ==> is_compile_failure(e),
        decreases node, 3nat,
    {
        match node {
            AST::Expr(r, _) => {
                match self.expr_to_bytecode(node) {
                    Ok(c) => Ok(c),
                    Err(e) => Err(e.chain(r.text())),
                }
            },
            AST::StringLit(_, s) => {
                let v = vec![Bytecode::Push(Value::String(s.clone()))];
                proof {
                    single_balanced(v@);
                    assert(code_view(v@) =~= seq![BytecodeV::Push(ValueV::Str(s@))]);
                }
                Ok(v)
            },
            AST::Identifier(_, s) => {
                let v = vec![Bytecode::Load(s.clone())];
                proof {
                    single_balanced(v@);
                    assert(code_view(v@) =~= seq![BytecodeV::Load(s@)]);
                }
                Ok(v)
            },
            AST::Number(_, n) => {
                let v = vec![Bytecode::Push(Value::Number(*n))];
                proof {
                    single_balanced(v@);
                    assert(code_view(v@) =~= seq![BytecodeV::Push(ValueV::Number(*n))]);
                }
                Ok(v)
            },
        }
    }
}

impl<'a> ToBytecode<'a> {
    /// Lowers an expression node as a call: `()` pushes an empty list;
    /// `let`, `list` and `if` have lowerings of their own; any other head
    /// must name a user function or an intrinsic, and a user function must
    /// take the count of arguments given.
    pub fn expr_to_bytecode(&self, expr: &AST) -> (r: Result<Vec<Bytecode>, Error>)
        requires
            expr is Expr,
        ensures
            lowers_to(r, lower_expr(expr@, *self.fun_table)),
            r matches Ok(c) ==> balanced(code_view(c@)),
            r matches Err(e) ==> is_compile_failure(e),
            user_call(expr@, *self.fun_table) matches Some((f, c)) ==> (!arity_fits(f, c) <==> (r matches Err(e)
                && e.kind == ErrorKind::Arity && e.context@.len() == 0)),
        decreases expr, 2nat,
    {
        let exprs = expr.exprs();
        proof {
            lemma_expr_view(expr->Expr_0, *exprs);
        }
        if exprs.len() == 0 {
            let empty: Vec<Value> = Vec::new();
            proof {
                crate::value::lemma_list_view(empty);
                assert(views(empty@) =~= Seq::<ValueV>::empty());
            }
            let v = vec![Bytecode::Push(Value::List(empty))];
            proof {
                single_balanced(v@);
                assert(code_view(v@) =~= seq![BytecodeV::Push(ValueV::List(Seq::empty()))]);
            }
            return Ok(v);
        }
        let name = match &exprs[0] {
            AST::Expr(_, _) => {
                return Err(Error::new(ErrorKind::Compile, "a call of an expression as a function is not supported"));
            },
            AST::Number(_, _) => {
                return Err(Error::new(ErrorKind::Compile, "attempt to call number literal as a function"));
            },
            AST::StringLit(_, name) => name,
            AST::Identifier(_, name) => name,
        };
        let head_range = exprs[0].range();
        if is_word(name, "let") {
            return match self.let_builtin(expr) {
                Ok(c) => Ok(c),
                Err(e) => Err(e.chain(head_range.text())),
            };
        }
        if is_word(name, "list") {
            return match self.list_builtin(expr) {
                Ok(c) => Ok(c),
                Err(e) => Err(e.chain(head_range.text())),
            };
        }
        if is_word(name, "if") {
            return match self.if_builtin(expr) {
                Ok(c) => Ok(c),
                Err(e) => Err(e.chain(head_range.text())),
            };
        }
        let intrinsic = is_intrinsic(name.as_str());
        if !intrinsic && !self.fun_table.has_fun(name.as_str()) {
            return Err(Error::with_detail(ErrorKind::UnknownFunction, "attempt to call non-existent function ", name.as_str()));
        }
        let arg_count = exprs.len() - 1;
        if !intrinsic {
            let fun = self.fun_table.get_fun(name.as_str()).unwrap();
            let min_args = self.min_function_args(fun);
            let max_args = self.max_function_args(fun);
            if arg_count > max_args || arg_count < min_args {
                let mut m = owned("no variant of function ");
                push_str(&mut m, fun.name.as_str());
                push_str(&mut m, " takes ");
                crate::num::push_nat(&mut m, arg_count as u64);
                if max_args == min_args {
                    push_str(&mut m, " arguments (takes exactly ");
                    crate::num::push_nat(&mut m, min_args as u64);
                    push_str(&mut m, " arguments)");
                } else {
                    push_str(&mut m, " arguments (takes ");
                    crate::num::push_nat(&mut m, min_args as u64);
                    push_str(&mut m, " to ");
                    crate::num::push_nat(&mut m, max_args as u64);
                    push_str(&mut m, " arguments)");
                }
                return Err(Error::of(ErrorKind::Arity, m));
            }
        }
        let ghost l = ast_views(exprs@);
        let mut code: Vec<Bytecode> = Vec::new();
        proof {
            assert(code_view(code@) =~= Seq::<BytecodeV>::empty());
            assert(net(Seq::<BytecodeV>::empty()) == 0);
        }
        let mut k: usize = 1;
        while k < exprs.len()
            invariant
                1 <= k <= exprs@.len(),
                l == ast_views(exprs@),
                lower_seq(l, 1, k as int, *self.fun_table) == Some(code_view(code@)),
                lower_expr(expr@, *self.fun_table) == match lower_seq(l, 1, l.len() as int, *self.fun_table) {
                    Some(args) => Some(args.push(BytecodeV::Call(name@, (l.len() - 1) as usize))),
                    None => None::<Seq<BytecodeV>>,
                },
                balanced(code_view(code@)),
                expr->Expr_1 == *exprs,
                *expr is Expr,
                user_call(expr@, *self.fun_table) matches Some((f, c)) ==> arity_fits(f, c),
            decreases exprs.len() - k,
        {
            proof {
                assert(decreases_to!(*expr => expr->Expr_1));
                assert(decreases_to!(expr->Expr_1 => expr->Expr_1@));
                assert(decreases_to!(expr->Expr_1@ => expr->Expr_1@[k as int]));
            }
            let mut part = match self.node_to_bytecode(&exprs[k]) {
                Ok(p) => p,
                Err(e) => {
                    proof {
                        lemma_seq_none(l, 1, k as int + 1, l.len() as int, *self.fun_table);
                    }
                    return Err(e.chain(head_range.text()));
                },
            };
            let ghost before = code_view(code@);
            let ghost pv = code_view(part@);
            proof {
                lemma_balanced_add(before, pv);
            }
            code.append(&mut part);
            assert(code_view(code@) =~= before + pv);
            k = k + 1;
        }
        let call = vec![Bytecode::Call(name.clone(), arg_count)];
        proof {
            assert(code_view(code@).push(BytecodeV::Call(name@, arg_count)) =~= code_view(code@) + code_view(call@));
            single_balanced(call@);
            lemma_balanced_add(code_view(code@), code_view(call@));
        }
        let mut call = call;
        let ghost before = code_view(code@);
        let ghost pv = code_view(call@);
        code.append(&mut call);
        assert(code_view(code@) =~= before + pv);
        Ok(code)
    }

    /// The fewest arguments a call of `fun` may pass.
    pub fn min_function_args(&self, fun: &Function) -> (r: usize)
        ensures
            r == leading_required(fun.params@),
    {
        let mut count: usize = 0;
        while count < fun.params.len() && !fun.params[count].optional
            invariant
                count <= fun.params@.len(),
                forall|k: int| 0 <= k < count ==> !(#[trigger] fun.params@[k]).optional,
            decreases fun.params.len() - count,
        {
            count = count + 1;
        }
        proof {
            lemma_leading_required(fun.params@, count as int);
        }
        count
    }

    /// The most arguments a call of `fun` may pass.
    pub fn max_function_args(&self, fun: &Function) -> (r: usize)
        ensures
            r == fun.params@.len(),
    {
        fun.params.len()
    }

    /// Lowers `(let ((NAME VALUE)...) BODY...)`: a new scope, each binding
    /// (a call's result popped into the name, or a literal stored), the
    /// body, and the scope's close.
    fn let_builtin(&self, expr: &AST) -> (r: Result<Vec<Bytecode>, Error>)
        requires
            expr is Expr,
            expr->Expr_1@.len() > 0,
            !(expr->Expr_1@[0] is Expr),
            !(expr->Expr_1@[0] is Number),
            expr->Expr_1@[0] is Identifier ==> expr->Expr_1@[0]->Identifier_1@ == "let"@,
            expr->Expr_1@[0] is StringLit ==> expr->Expr_1@[0]->StringLit_1@ == "let"@,
        ensures
            lowers_to(r, lower_expr(expr@, *self.fun_table)),
            r matches Ok(c) ==> balanced(code_view(c@)) && c@.len() >= 2 && c@[0] is NewVarStack
                && c@.last() is PopVarStack,
            r matches Err(e) ==> is_compile_failure(e),
        decreases expr, 1nat,
    {
        let exprs = expr.exprs();
        proof {
            lemma_expr_view(expr->Expr_0, *exprs);
            assert(ast_views(exprs@)[0] == exprs@[0]@);
            reveal_strlit("let");
            reveal_strlit("list");
            reveal_strlit("if");
        }
        if !exprs[0].is_identifier() {
            return Err(Error::new(ErrorKind::Compile, "let function must be called as an identifier"));
        }
        if exprs.len() < 2 || !exprs[1].is_expr() {
            proof {
                if exprs@.len() >= 2 {
                    assert(ast_views(exprs@)[1] == exprs@[1]@);
                }
            }
            return Err(Error::new(ErrorKind::Compile, "second argument of let function must be a list"));
        }
        let setz = exprs[1].exprs();
        let ghost l = ast_views(exprs@);
        let ghost sets = ast_views(setz@);
        proof {
            lemma_expr_view(exprs@[1]->Expr_0, *setz);
            assert(l[1] == exprs@[1]@);
        }
        let mut inner: Vec<Bytecode> = Vec::new();
        proof {
            assert(code_view(inner@) =~= Seq::<BytecodeV>::empty());
            assert(net(Seq::<BytecodeV>::empty()) == 0);
        }
        let mut k: usize = 0;
        while k < setz.len()
            invariant
                k <= setz@.len(),
                balanced(code_view(inner@)),
                expr->Expr_1 == *exprs,
                *expr is Expr,
                exprs@.len() >= 2,
                exprs@[1] is Expr,
                exprs@[1]->Expr_1 == *setz,
                l == ast_views(exprs@),
                sets == ast_views(setz@),
                l[1] == AstV::Expr(sets),
                lower_binds(sets, k as int, *self.fun_table) == Some(code_view(inner@)),
                lower_expr(expr@, *self.fun_table) == match (lower_binds(sets, sets.len() as int, *self.fun_table), lower_seq(l, 2, l.len() as int, *self.fun_table)) {
                    (Some(b), Some(body)) => Some(seq![BytecodeV::NewVarStack] + b + body + seq![BytecodeV::PopVarStack]),
                    _ => None::<Seq<BytecodeV>>,
                },
            decreases setz.len() - k,
        {
            let set = &setz[k];
            if !set.is_expr() || set.exprs().len() != 2 {
                proof {
                    if set is Expr {
                        lemma_expr_view(set->Expr_0, set->Expr_1);
                    }
                    lemma_binds_none(sets, k as int + 1, sets.len() as int, *self.fun_table);
                }
                return Err(Error::new(ErrorKind::Compile, "assignments must be a list of two items"));
            }
            let assign = set.exprs();
            proof {
                lemma_expr_view(set->Expr_0, *assign);
                assert(sets[k as int] == AstV::Expr(ast_views(assign@)));
            }
            if !assign[0].is_identifier() {
                proof {
                    lemma_binds_none(sets, k as int + 1, sets.len() as int, *self.fun_table);
                }
                return Err(Error::new(ErrorKind::Compile, "assignments name must be an identifier"));
            }
            let var = owned(assign[0].identifier());
            let ghost before = code_view(inner@);
            if assign[1].is_expr() {
                proof {
                    assert(decreases_to!(*expr => expr->Expr_1));
                    assert(decreases_to!(expr->Expr_1 => expr->Expr_1@));
                    assert(decreases_to!(expr->Expr_1@ => expr->Expr_1@[1]));
                    assert(decreases_to!(expr->Expr_1@[1] => expr->Expr_1@[1]->Expr_1));
                    assert(decreases_to!(expr->Expr_1@[1]->Expr_1 => expr->Expr_1@[1]->Expr_1@));
                    assert(decreases_to!(expr->Expr_1@[1]->Expr_1@ => expr->Expr_1@[1]->Expr_1@[k as int]));
                    assert(decreases_to!(setz@[k as int] => setz@[k as int]->Expr_1));
                    assert(decreases_to!(setz@[k as int]->Expr_1 => setz@[k as int]->Expr_1@));
                    assert(decreases_to!(setz@[k as int]->Expr_1@ => setz@[k as int]->Expr_1@[1]));
                }
                let mut part = match self.expr_to_bytecode(&assign[1]) {
                    Ok(p) => p,
                    Err(e) => {
                        proof {
                            lemma_binds_none(sets, k as int + 1, sets.len() as int, *self.fun_table);
                        }
                        return Err(e.chain(owned("invalid function call")));
                    },
                };
                let pop = vec![Bytecode::Pop(var)];
                proof {
                    single_balanced(pop@);
                    lemma_balanced_add(before, code_view(part@));
                    lemma_balanced_add(before + code_view(part@), code_view(pop@));
                }
                let mut pop = pop;
                let ghost part_v = code_view(part@);
                let ghost pop_v = code_view(pop@);
                inner.append(&mut part);
                inner.append(&mut pop);
                assert(code_view(inner@) =~= before + part_v + pop_v);
                assert(pop_v =~= seq![BytecodeV::Pop(assign@[0]->Identifier_1@)]);
            } else {
                let store = vec![Bytecode::Store(var, assign[1].to_value())];
                proof {
                    single_balanced(store@);
                    lemma_balanced_add(before, code_view(store@));
                }
                let mut store = store;
                let ghost part_v = code_view(store@);
                inner.append(&mut store);
                assert(code_view(inner@) =~= before + part_v);
                assert(part_v =~= seq![BytecodeV::Store(assign@[0]->Identifier_1@, crate::ast::ast_value(assign@[1]@))]);
            }
            k = k + 1;
        }
        proof {
            assert(decreases_to!(*expr => expr->Expr_1));
        }
        proof {
            assert(sets.len() == setz@.len());
        }
        let mut body = self.nodes_to_bytecode(exprs, 2)?;
        let ghost before = code_view(inner@);
        let ghost pb = code_view(body@);
        proof {
            lemma_balanced_add(before, pb);
        }
        inner.append(&mut body);
        assert(code_view(inner@) =~= before + pb);
        let mut code: Vec<Bytecode> = vec![Bytecode::NewVarStack];
        let ghost iv = code_view(inner@);
        code.append(&mut inner);
        code.push(Bytecode::PopVarStack);
        proof {
            lemma_balanced_scope(iv);
            assert(code_view(code@) =~= seq![BytecodeV::NewVarStack] + iv + seq![BytecodeV::PopVarStack]);
            assert(iv == before + pb);
            assert(seq![BytecodeV::NewVarStack] + iv + seq![BytecodeV::PopVarStack]
                =~= seq![BytecodeV::NewVarStack] + before + pb + seq![BytecodeV::PopVarStack]);
        }
        Ok(code)
    }

    /// Lowers `(list X1 ... XN)`: the end marker, the items from last to
    /// first, the start marker with the count of instructions that pushed
    /// them, and the call of `list`.
    fn list_builtin(&self, expr: &AST) -> (r: Result<Vec<Bytecode>, Error>)
        requires
            expr is Expr,
            expr->Expr_1@.len() > 0,
            !(expr->Expr_1@[0] is Expr),
            !(expr->Expr_1@[0] is Number),
            expr->Expr_1@[0] is Identifier ==> expr->Expr_1@[0]->Identifier_1@ == "list"@,
            expr->Expr_1@[0] is StringLit ==> expr->Expr_1@[0]->StringLit_1@ == "list"@,
        ensures
            lowers_to(r, lower_expr(expr@, *self.fun_table)),
            r matches Ok(c) ==> balanced(code_view(c@)) && c@.len() >= 3
                && c@[0]@ == BytecodeV::Push(ValueV::EndArgs)
                && c@[c@.len() - 2]@ == BytecodeV::Push(ValueV::StartArgs((c@.len() - 3) as i64))
                && c@.last()@ == BytecodeV::Call("list"@, 0),
            r matches Err(e) ==> is_compile_failure(e),
        decreases expr, 1nat,
    {
        let exprs = expr.exprs();
        let ghost l = ast_views(exprs@);
        proof {
            lemma_expr_view(expr->Expr_0, *exprs);
            assert(l[0] == exprs@[0]@);
            reveal_strlit("let");
            reveal_strlit("list");
            reveal_strlit("if");
        }
        if !exprs[0].is_identifier() {
            return Err(Error::new(ErrorKind::Compile, "list function must be called as an identifier"));
        }
        let mut items: Vec<Bytecode> = Vec::new();
        proof {
            assert(code_view(items@) =~= Seq::<BytecodeV>::empty());
            assert(net(Seq::<BytecodeV>::empty()) == 0);
        }
        let mut k: usize = exprs.len();
        proof {
            assert(expr@ == AstV::Expr(l));
            assert(l[0] is Ident && l[0]->Ident_0 == "list"@);
            if let Some(x) = lower_rev(l, l.len() as int, *self.fun_table) {
                assert(code_view(items@) + x =~= x);
            }
        }
        while k > 1
            invariant
                1 <= k <= exprs@.len(),
                balanced(code_view(items@)),
                expr->Expr_1 == *exprs,
                *expr is Expr,
                l == ast_views(exprs@),
                lower_rev(l, l.len() as int, *self.fun_table) == match lower_rev(l, k as int, *self.fun_table) {
                    Some(x) => Some(code_view(items@) + x),
                    None => None::<Seq<BytecodeV>>,
                },
                lower_expr(expr@, *self.fun_table) == match lower_rev(l, l.len() as int, *self.fun_table) {
                    Some(items) => if items.len() >= i64::MAX {
                        None
                    } else {
                        Some(seq![BytecodeV::Push(ValueV::EndArgs)] + items + seq![
                            BytecodeV::Push(ValueV::StartArgs(items.len() as i64)),
                            BytecodeV::Call("list"@, 0),
                        ])
                    },
                    None => None::<Seq<BytecodeV>>,
                },
            decreases k,
        {
            proof {
                assert(decreases_to!(*expr => expr->Expr_1));
                assert(decreases_to!(expr->Expr_1 => expr->Expr_1@));
                assert(decreases_to!(expr->Expr_1@ => expr->Expr_1@[k - 1]));
            }
            let mut part = match self.node_to_bytecode(&exprs[k - 1]) {
                Ok(p) => p,
                Err(e) => {
                    proof {
                        assert(l[k - 1] == exprs@[k - 1]@);
                    }
                    return Err(e.chain(owned("list function call")));
                },
            };
            let ghost before = code_view(items@);
            let ghost pv = code_view(part@);
            proof {
                lemma_balanced_add(before, pv);
                assert(l[k - 1] == exprs@[k - 1]@);
                if let Some(x) = lower_rev(l, k - 1, *self.fun_table) {
                    assert(before + (pv + x) =~= (before + pv) + x);
                }
            }
            items.append(&mut part);
            assert(code_view(items@) =~= before + pv);
            k = k - 1;
        }
        proof {
            assert(code_view(items@) + Seq::<BytecodeV>::empty() =~= code_view(items@));
        }
        if items.len() as u64 >= 0x7fff_ffff_ffff_ffff {
            return Err(Error::new(ErrorKind::Compile, "list function call too long"));
        }
        let size = items.len() as i64;
        let ghost iv = code_view(items@);
        let mut code: Vec<Bytecode> = vec![Bytecode::Push(Value::EndArgs)];
        code.append(&mut items);
        code.push(Bytecode::Push(Value::StartArgs(size)));
        code.push(Bytecode::Call(owned("list"), 0));
        proof {
            let a = seq![BytecodeV::Push(ValueV::EndArgs)];
            let b = seq![BytecodeV::Push(ValueV::StartArgs(size))];
            let c = seq![BytecodeV::Call("list"@, 0)];
            lemma_balanced_plain(BytecodeV::Push(ValueV::EndArgs));
            lemma_balanced_plain(BytecodeV::Push(ValueV::StartArgs(size)));
            lemma_balanced_plain(BytecodeV::Call("list"@, 0));
            lemma_balanced_add(a, iv);
            lemma_balanced_add(a + iv, b);
            lemma_balanced_add(a + iv + b, c);
            assert(code_view(code@) =~= a + iv + b + c);
            assert(b + c =~= seq![BytecodeV::Push(ValueV::StartArgs(size)), BytecodeV::Call("list"@, 0)]);
            assert(a + iv + b + c =~= a + iv + (b + c));
        }
        Ok(code)
    }

    /// Lowers `(if COND THEN ELSE)` to the code of [`if_code`].
    fn if_builtin(&self, expr: &AST) -> (r: Result<Vec<Bytecode>, Error>)
        requires
            expr is Expr,
            expr->Expr_1@.len() > 0,
            !(expr->Expr_1@[0] is Expr),
            !(expr->Expr_1@[0] is Number),
            expr->Expr_1@[0] is Identifier ==> expr->Expr_1@[0]->Identifier_1@ == "if"@,
            expr->Expr_1@[0] is StringLit ==> expr->Expr_1@[0]->StringLit_1@ == "if"@,
        ensures
            lowers_to(r, lower_expr(expr@, *self.fun_table)),
            r matches Ok(c) ==> balanced(code_view(c@)) && exists|x: Seq<BytecodeV>, t: Seq<BytecodeV>, e: Seq<BytecodeV>|
                balanced(x) && balanced(t) && balanced(e) && code_view(c@) == #[trigger] if_code(x, t, e),
            r matches Err(e) ==> is_compile_failure(e),
        decreases expr, 1nat,
    {
        let exprs = expr.exprs();
        let ghost l = ast_views(exprs@);
        proof {
            lemma_expr_view(expr->Expr_0, *exprs);
            assert(l[0] == exprs@[0]@);
            reveal_strlit("let");
            reveal_strlit("list");
            reveal_strlit("if");
        }
        if !exprs[0].is_identifier() {
            return Err(Error::new(ErrorKind::Compile, "if function must be called as an identifier"));
        }
        proof {
            assert(expr@ == AstV::Expr(l));
            assert(l[0] is Ident && l[0]->Ident_0 == "if"@);
        }
        if exprs.len() != 4 {
            return Err(Error::new(ErrorKind::Compile, "if function requires exactly 3 arguments"));
        }
        proof {
            assert(decreases_to!(*expr => expr->Expr_1));
            assert(decreases_to!(expr->Expr_1 => expr->Expr_1@));
            assert(decreases_to!(expr->Expr_1@ => expr->Expr_1@[1]));
            assert(decreases_to!(expr->Expr_1@ => expr->Expr_1@[2]));
            assert(decreases_to!(expr->Expr_1@ => expr->Expr_1@[3]));
            assert(l[1] == exprs@[1]@);
            assert(l[2] == exprs@[2]@);
            assert(l[3] == exprs@[3]@);
            assert(expr@ == AstV::Expr(l));
        }
        let mut first = match self.node_to_bytecode(&exprs[1]) {
            Ok(c) => c,
            Err(e) => {
                return Err(e.chain(owned("condition of if function call")));
            },
        };
        let mut second = match self.node_to_bytecode(&exprs[2]) {
            Ok(c) => c,
            Err(e) => {
                return Err(e.chain(owned("first expression of if function call")));
            },
        };
        let mut third = match self.node_to_bytecode(&exprs[3]) {
            Ok(c) => c,
            Err(e) => {
                return Err(e.chain(owned("second expression of if function call")));
            },
        };
        if second.len() >= usize::MAX - 1 || third.len() >= usize::MAX - 1 {
            return Err(Error::new(ErrorKind::Compile, "if function call too long"));
        }
        let ghost x = code_view(first@);
        let ghost t = code_view(second@);
        let ghost e = code_view(third@);
        let skip_then = second.len() + 1;
        let skip_else = third.len();
        let mut code: Vec<Bytecode> = Vec::new();
        code.append(&mut first);
        code.push(Bytecode::SkipFalse(skip_then));
        code.append(&mut second);
        code.push(Bytecode::Skip(skip_else));
        code.append(&mut third);
        proof {
            lemma_balanced_if(x, t, e);
            assert(code_view(code@) =~= if_code(x, t, e));
        }
        Ok(code)
    }
}

proof fn single_balanced(v: Seq<Bytecode>)
    requires
        v.len() == 1,
        scope_delta(v[0]@) == 0,
        jump_of(v[0]@) is None,
    ensures
        balanced(code_view(v)),
{
    lemma_balanced_plain(v[0]@);
    assert(code_view(v) =~= seq![v[0]@]);
}

/// Where control goes after the instruction at `ip`; `taken` tells
/// whether a conditional jump there is taken (its value was false).
pub open spec fn next_ip(code: Seq<BytecodeV>, ip: int, taken: bool) -> int {
    match code[ip] {
        BytecodeV::Skip(n) => ip + 1 + n,
        BytecodeV::SkipFalse(n) => if taken {
            ip + 1 + n
        } else {
            ip + 1
        },
        _ => ip + 1,
    }
}

/// The net change in open scopes along the path from `ip` to the end of
/// `code`, where `taken(i)` tells whether the conditional jump at `i` is
/// taken.
pub open spec fn path_net(code: Seq<BytecodeV>, ip: int, taken: spec_fn(int) -> bool) -> int
    decreases code.len() - ip,
{
    if ip < 0 || ip >= code.len() {
        0
    } else if next_ip(code, ip, taken(ip)) <= ip || next_ip(code, ip, taken(ip)) > code.len() {
        scope_delta(code[ip])
    } else {
        scope_delta(code[ip]) + path_net(code, next_ip(code, ip, taken(ip)), taken)
    }
}

/// Whether the path from `ip` passes the instruction at `j`.
pub open spec fn visits(code: Seq<BytecodeV>, ip: int, taken: spec_fn(int) -> bool, j: int) -> bool
    decreases code.len() - ip,
{
    if ip < 0 || ip >= code.len() {
        false
    } else if ip == j {
        true
    } else if next_ip(code, ip, taken(ip)) <= ip || next_ip(code, ip, taken(ip)) > code.len() {
        false
    } else {
        visits(code, next_ip(code, ip, taken(ip)), taken, j)
    }
}

proof fn lemma_path_net_from(code: Seq<BytecodeV>, ip: int, taken: spec_fn(int) -> bool)
    requires
        balanced(code),
        0 <= ip <= code.len(),
    ensures
        path_net(code, ip, taken) == net(code.subrange(ip, code.len() as int)),
    decreases code.len() - ip,
{
    let len = code.len() as int;
    if ip == len {
        assert(code.subrange(ip, len) =~= Seq::<BytecodeV>::empty());
        assert(net(Seq::<BytecodeV>::empty()) == 0);
    } else {
        let nx = next_ip(code, ip, taken(ip));
        assert(jump_ok(code, ip));
        lemma_net_split(code, ip, ip + 1, len);
        assert(code.subrange(ip, ip + 1) =~= seq![code[ip]]);
        lemma_net_single(code[ip]);
        if nx != ip + 1 {
            let n = jump_of(code[ip])->0;
            lemma_net_split(code, ip + 1, ip + 1 + n, len);
        }
        lemma_path_net_from(code, nx, taken);
    }
}

/// Scopes balance on every path: in balanced code, whichever conditional
/// jumps are taken, the path from the start to the end opens as many
/// scopes as it closes.
pub proof fn lemma_paths_balanced(code: Seq<BytecodeV>, taken: spec_fn(int) -> bool)
    requires
        balanced(code),
    ensures
        path_net(code, 0, taken) == 0,
{
    lemma_path_net_from(code, 0, taken);
    assert(code.subrange(0, code.len() as int) =~= code);
}

proof fn lemma_visits_forward(code: Seq<BytecodeV>, ip: int, taken: spec_fn(int) -> bool, j: int)
    requires
        visits(code, ip, taken, j),
    ensures
        ip <= j,
    decreases code.len() - ip,
{
    if 0 <= ip < code.len() && ip != j && next_ip(code, ip, taken(ip)) > ip
        && next_ip(code, ip, taken(ip)) <= code.len() {
        lemma_visits_forward(code, next_ip(code, ip, taken(ip)), taken, j);
    }
}

proof fn lemma_then_stays(
    c: Seq<BytecodeV>,
    t: Seq<BytecodeV>,
    e: Seq<BytecodeV>,
    ip: int,
    taken: spec_fn(int) -> bool,
    j: int,
)
    requires
        balanced(t),
        t.len() + 1 <= usize::MAX,
        e.len() <= usize::MAX,
        c.len() + 1 <= ip <= c.len() + 1 + t.len(),
        c.len() + 2 + t.len() <= j,
    ensures
        !visits(if_code(c, t, e), ip, taken, j),
    decreases if_code(c, t, e).len() - ip,
{
    let s = if_code(c, t, e);
    let p = c.len() as int;
    if ip < p + 1 + t.len() {
        let k = ip - p - 1;
        assert(s[ip] == t[k]);
        assert(jump_ok(t, k));
        let nx = next_ip(s, ip, taken(ip));
        assert(nx <= p + 1 + t.len());
        assert(nx > ip);
        lemma_then_stays(c, t, e, nx, taken, j);
        assert(ip != j);
    } else {
        assert(s[ip] == BytecodeV::Skip(e.len() as usize));
        assert(next_ip(s, ip, taken(ip)) == s.len());
        assert(!visits(s, s.len() as int, taken, j));
        assert(ip != j);
    }
}

/// The lowering of `if` runs exactly one branch. In `if_code(c, t, e)`,
/// the conditional jump after `c` goes to the start of `e` where the
/// condition is false, and no instruction of `t` or of the jump after it
/// runs; where the condition holds it goes to the start of `t`, no
/// instruction of `e` runs, and the jump after `t` goes past `e` to the
/// end. The whole code is `|c| + 1 + |t| + 1 + |e|` instructions long.
pub proof fn lemma_if_one_branch(
    c: Seq<BytecodeV>,
    t: Seq<BytecodeV>,
    e: Seq<BytecodeV>,
    taken: spec_fn(int) -> bool,
)
    requires
        balanced(t),
        balanced(e),
        t.len() + 1 <= usize::MAX,
        e.len() <= usize::MAX,
    ensures
        ({
            let s = if_code(c, t, e);
            let p = c.len() as int;
            &&& s.len() == c.len() + 1 + t.len() + 1 + e.len()
            &&& s[p] == BytecodeV::SkipFalse((t.len() + 1) as usize)
            &&& s[p + 1 + t.len()] == BytecodeV::Skip(e.len() as usize)
            &&& next_ip(s, p, true) == p + 2 + t.len()
            &&& next_ip(s, p, false) == p + 1
            &&& next_ip(s, p + 1 + t.len(), taken(p + 1 + t.len())) == s.len()
            &&& taken(p) ==> forall|j: int| p < j < p + 2 + t.len() ==> !#[trigger] visits(s, p, taken, j)
            &&& !taken(p) ==> forall|j: int| p + 2 + t.len() <= j ==> !#[trigger] visits(s, p, taken, j)
        }),
{
    let s = if_code(c, t, e);
    let p = c.len() as int;
    assert(s[p] == BytecodeV::SkipFalse((t.len() + 1) as usize));
    assert(s[p + 1 + t.len()] == BytecodeV::Skip(e.len() as usize));
    if taken(p) {
        assert forall|j: int| p < j < p + 2 + t.len() implies !#[trigger] visits(s, p, taken, j) by {
            if visits(s, p + 2 + t.len(), taken, j) {
                lemma_visits_forward(s, p + 2 + t.len(), taken, j);
            }
        }
    } else {
        assert forall|j: int| p + 2 + t.len() <= j implies !#[trigger] visits(s, p, taken, j) by {
            lemma_then_stays(c, t, e, p + 1, taken, j);
        }
    }
}

} // verus!
