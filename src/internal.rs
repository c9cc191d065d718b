//! The tables the preprocessor fills: types with their aliases, and
//! functions.

use vstd::prelude::*;
use crate::ast::AST;
use crate::error::{Error, ErrorKind};
use crate::text::{owned, push_str};

verus! {

/// A parameter of a function.
#[derive(Debug)]
pub struct Param {
    pub name: String,
    pub param_type: Type,
    pub optional: bool,
    pub varargs: bool,
}

impl Param {
    pub fn new(name: String, param_type: Type, optional: bool, varargs: bool) -> (r: Param)
        ensures
            r == (Param { name, param_type, optional, varargs }),
    {
        Param { name, param_type, optional, varargs }
    }

    pub fn from_type(name: String, param_type: Type, optional: bool) -> (r: Param)
        ensures
            r == (Param { name, param_type, optional, varargs: false }),
    {
        Param::new(name, param_type, optional, false)
    }

    /// A parameter of any type.
    pub fn any(name: String, optional: bool) -> (r: Param)
        ensures
            r == (Param { name, param_type: Type::Any, optional, varargs: false }),
    {
        Param::new(name, Type::Any, optional, false)
    }
}

/// A type: a primitive, or an alias `TypeDef(name, target)`.
#[derive(Debug)]
pub enum Type {
    Number,
    Listy,
    Str,
    Any,
    TypeDef(String, String),
}

pub open spec fn type_label(t: Type) -> Seq<char> {
    match t {
        Type::Number => ":int"@,
        Type::Listy => ":listy"@,
        Type::Str => ":string"@,
        Type::Any => ":any"@,
        Type::TypeDef(n, _) => n@,
    }
}

impl Clone for Type {
    fn clone(&self) -> (r: Type)
        ensures
            type_label(r) == type_label(*self),
            r is TypeDef == self is TypeDef,
            r is TypeDef ==> r->TypeDef_1@ == self->TypeDef_1@,
            !(r is TypeDef) ==> r == *self,
    {
        match self {
            Type::Number => Type::Number,
            Type::Listy => Type::Listy,
            Type::Str => Type::Str,
            Type::Any => Type::Any,
            Type::TypeDef(a, b) => Type::TypeDef(a.clone(), b.clone()),
        }
    }
}

impl Type {
    pub fn is_typedef(&self) -> (r: bool)
        ensures
            r == (self is TypeDef),
    {
        match self {
            Type::TypeDef(_, _) => true,
            _ => false,
        }
    }

    /// The type's name: `:int`, `:listy`, `:string`, `:any`, or the
    /// alias's own name.
    pub fn name(&self) -> (r: &str)
        ensures
            r@ == type_label(*self),
    {
        match self {
            Type::Number => ":int",
            Type::Listy => ":listy",
            Type::Str => ":string",
            Type::TypeDef(name, _) => name.as_str(),
            Type::Any => ":any",
        }
    }

    /// The name an alias stands for.
    pub fn alias(&self) -> (r: &str)
        requires
            self is TypeDef,
        ensures
            r@ == self->TypeDef_1@,
    {
        match self {
            Type::TypeDef(_, other) => other.as_str(),
            _ => "",
        }
    }
}

/// The index of the first type named `name`.
pub open spec fn find_type(ts: Seq<Type>, name: Seq<char>) -> Option<int>
    decreases ts.len(),
{
    if ts.len() == 0 {
        None
    } else {
        match find_type(ts.drop_last(), name) {
            Some(i) => Some(i),
            None => if type_label(ts.last()) == name {
                Some(ts.len() - 1)
            } else {
                None
            },
        }
    }
}

/// The index of the type that `name` stands for once aliases are followed,
/// following at most `fuel` of them.
pub open spec fn resolve(ts: Seq<Type>, name: Seq<char>, fuel: nat) -> Option<int>
    decreases fuel,
{
    match find_type(ts, name) {
        None => None,
        Some(i) => if ts[i] is TypeDef {
            if fuel == 0 {
                None
            } else {
                resolve(ts, ts[i]->TypeDef_1@, (fuel - 1) as nat)
            }
        } else {
            Some(i)
        },
    }
}

pub proof fn lemma_find_type(ts: Seq<Type>, name: Seq<char>)
    ensures
        find_type(ts, name) matches Some(i) ==> 0 <= i < ts.len() && type_label(ts[i]) == name
            && forall|k: int| 0 <= k < i ==> type_label(#[trigger] ts[k]) != name,
        find_type(ts, name) is None ==> forall|k: int| 0 <= k < ts.len() ==> type_label(#[trigger] ts[k]) != name,
    decreases ts.len(),
{
    if ts.len() > 0 {
        lemma_find_type(ts.drop_last(), name);
        assert(forall|k: int| 0 <= k < ts.len() - 1 ==> ts.drop_last()[k] == ts[k]);
    }
}

proof fn lemma_find_push(ts: Seq<Type>, t: Type, name: Seq<char>)
    requires
        find_type(ts, name) is Some,
    ensures
        find_type(ts.push(t), name) == find_type(ts, name),
{
    assert(ts.push(t).drop_last() =~= ts);
}

proof fn lemma_resolve_first(ts: Seq<Type>, name: Seq<char>, fuel: nat)
    requires
        resolve(ts, name, fuel) is Some,
    ensures
        find_type(ts, type_label(ts[resolve(ts, name, fuel)->0])) == resolve(ts, name, fuel),
    decreases fuel,
{
    lemma_find_type(ts, name);
    let i = find_type(ts, name)->0;
    if ts[i] is TypeDef {
        lemma_resolve_first(ts, ts[i]->TypeDef_1@, (fuel - 1) as nat);
    }
}

proof fn lemma_resolve(ts: Seq<Type>, name: Seq<char>, fuel: nat)
    ensures
        resolve(ts, name, fuel) matches Some(i) ==> 0 <= i < ts.len() && !(ts[i] is TypeDef),
    decreases fuel,
{
    lemma_find_type(ts, name);
    if let Some(i) = find_type(ts, name) {
        if ts[i] is TypeDef && fuel > 0 {
            lemma_resolve(ts, ts[i]->TypeDef_1@, (fuel - 1) as nat);
        }
    }
}

/// The table of types. Aliases are followed on lookup; a chain of aliases
/// longer than the table is a cycle and resolves to nothing.
#[derive(Debug)]
pub struct TypeTable {
    pub types: Vec<Type>,
}

impl TypeTable {
    /// What `name` stands for in this table.
    pub open spec fn resolves(&self, name: Seq<char>) -> Option<int> {
        resolve(self.types@, name, self.types@.len())
    }

    pub fn new(types: Vec<Type>) -> (r: TypeTable)
        ensures
            r.types == types,
    {
        TypeTable { types }
    }

    /// The index of the first type named `name`.
    fn find(&self, name: &str) -> (r: Option<usize>)
        ensures
            r matches Some(i) ==> find_type(self.types@, name@) == Some(i as int),
            r is None ==> find_type(self.types@, name@) is None,
    {
        proof {
            lemma_find_type(self.types@, name@);
        }
        let n = owned(name);
        let mut i: usize = 0;
        while i < self.types.len()
            invariant
                i <= self.types@.len(),
                n@ == name@,
                forall|k: int| 0 <= k < i ==> type_label(#[trigger] self.types@[k]) != name@,
                find_type(self.types@, name@) matches Some(j) ==> i <= j,
            decreases self.types.len() - i,
        {
            proof {
                lemma_find_type(self.types@, name@);
            }
            let t = owned(self.types[i].name());
            if t.eq(&n) {
                return Some(i);
            }
            i = i + 1;
        }
        None
    }

    /// The type `tname` stands for, aliases followed.
    pub fn get_type(&self, tname: &str) -> (r: Option<&Type>)
        ensures
            self.resolves(tname@) matches Some(i) ==> 0 <= i < self.types@.len(),
            match self.resolves(tname@) {
                Some(i) => r == Some(&self.types@[i]),
                None => r is None,
            },
    {
        let ghost ts = self.types@;
        proof {
            lemma_resolve(ts, tname@, ts.len());
        }
        let mut name = owned(tname);
        let mut fuel: usize = self.types.len();
        loop
            invariant
                ts == self.types@,
                fuel <= ts.len(),
                resolve(ts, name@, fuel as nat) == self.resolves(tname@),
            decreases fuel,
        {
            proof {
                lemma_find_type(ts, name@);
            }
            match self.find(name.as_str()) {
                None => {
                    return None;
                },
                Some(i) => {
                    let t = &self.types[i];
                    if t.is_typedef() {
                        if fuel == 0 {
                            return None;
                        }
                        name = owned(t.alias());
                        fuel = fuel - 1;
                    } else {
                        return Some(t);
                    }
                },
            }
        }
    }

    /// Whether `tname` stands for a type.
    pub fn has_type(&self, tname: &str) -> (r: bool)
        ensures
            r == self.resolves(tname@) is Some,
    {
        self.get_type(tname).is_some()
    }

    /// Adds the alias `tname` for what `target` stands for.
    pub fn add_typedef(&mut self, tname: &str, target: &str)
        requires
            old(self).resolves(tname@) is None,
            old(self).resolves(target@) is Some,
        ensures
            final(self).types@.len() == old(self).types@.len() + 1,
            final(self).types@.drop_last() == old(self).types@,
            final(self).types@.last() matches Type::TypeDef(n, t)
                && n@ == tname@
                && t@ == type_label(old(self).types@[old(self).resolves(target@)->0]),
            find_type(old(self).types@, tname@) is None ==> final(self).resolves(tname@) == old(self).resolves(target@),
    {
        let other = owned(self.get_type(target).unwrap().name());
        let ghost ts = self.types@;
        self.types.push(Type::TypeDef(owned(tname), other));
        proof {
            let j = resolve(ts, target@, ts.len())->0;
            lemma_resolve_first(ts, target@, ts.len());
            lemma_resolve(ts, target@, ts.len());
            let ts2 = self.types@;
            assert(ts2.drop_last() =~= ts);
            if find_type(ts, tname@) is None {
                assert(find_type(ts2, tname@) == Some(ts.len() as int));
                lemma_find_push(ts, ts2.last(), type_label(ts[j]));
                assert(ts2[j] == ts[j]);
                assert(resolve(ts2, type_label(ts[j]), ts.len()) == Some(j));
            }
        }
    }

    /// Moves the types of `other` that this table lacks into it; an alias
    /// that `other` points elsewhere than this table does is an error.
    pub fn merge(&mut self, other: TypeTable) -> (r: Result<(), Error>)
        ensures
            r is Err <==> exists|i: int, j: int|
                0 <= i < other.types@.len() && 0 <= j < old(self).types@.len()
                && #[trigger] conflicting(other.types@[i], old(self).types@[j]),
            r matches Err(e) ==> e.kind == ErrorKind::TypeAlias,
            r is Err ==> *final(self) == *old(self),
            r is Ok ==> same_types(final(self).types@, old(self).types@ + fresh_types(old(self).types@, other.types@)),
            (r is Ok) == (merge_spec(old(self).types@, other.types@) is Some),
            r is Ok ==> final(self).types@.subrange(0, old(self).types@.len() as int) == old(self).types@,
            r is Ok ==> final(self).types@.len() == old(self).types@.len() + fresh_types(old(self).types@, other.types@).len(),
            r is Ok ==> forall|k: int| 0 <= k < fresh_types(old(self).types@, other.types@).len()
                ==> same_type(#[trigger] final(self).types@[old(self).types@.len() + k], fresh_types(old(self).types@, other.types@)[k]),
            r is Ok ==> forall|k: int| old(self).types@.len() <= k < final(self).types@.len()
                ==> old(self).resolves(type_label(#[trigger] final(self).types@[k])) is None,
    {
        let mut i: usize = 0;
        while i < other.types.len()
            invariant
                i <= other.types@.len(),
                *self == *old(self),
                forall|a: int, b: int| 0 <= a < i && 0 <= b < self.types@.len()
                    ==> !#[trigger] conflicting(other.types@[a], self.types@[b]),
            decreases other.types.len() - i,
        {
            let t = &other.types[i];
            if t.is_typedef() {
                let mut j: usize = 0;
                while j < self.types.len()
                    invariant
                        i < other.types@.len(),
                        j <= self.types@.len(),
                        *t == other.types@[i as int],
                        t is TypeDef,
                        *self == *old(self),
                        forall|b: int| 0 <= b < j ==> !conflicting(other.types@[i as int], #[trigger] self.types@[b]),
                    decreases self.types.len() - j,
                {
                    let u = &self.types[j];
                    if u.is_typedef() {
                        let tn = owned(t.name());
                        let un = owned(u.name());
                        let ta = owned(t.alias());
                        let ua = owned(u.alias());
                        if tn.eq(&un) && !ta.eq(&ua) {
                            let mut m = owned("type ");
                            push_str(&mut m, t.name());
                            push_str(&mut m, " was originally set to alias ");
                            push_str(&mut m, u.alias());
                            push_str(&mut m, ", and is later set to alias ");
                            push_str(&mut m, t.alias());
                            assert(conflicting(other.types@[i as int], old(self).types@[j as int]));
                            return Err(Error::of(ErrorKind::TypeAlias, m));
                        }
                    }
                    j = j + 1;
                }
            }
            i = i + 1;
        }
        let ghost ts = self.types@;
        let mut keep: Vec<Type> = Vec::new();
        let mut k: usize = 0;
        while k < other.types.len()
            invariant
                k <= other.types@.len(),
                *self == *old(self),
                ts == self.types@,
                forall|x: int| 0 <= x < keep@.len() ==> self.resolves(type_label(#[trigger] keep@[x])) is None,
                keep@.len() == fresh_types(ts, other.types@.subrange(0, k as int)).len(),
                forall|x: int| 0 <= x < keep@.len() ==> same_type(#[trigger] keep@[x], fresh_types(ts, other.types@.subrange(0, k as int))[x]),
            decreases other.types.len() - k,
        {
            let t = &other.types[k];
            proof {
                assert(other.types@.subrange(0, k as int + 1).drop_last() =~= other.types@.subrange(0, k as int));
                assert(other.types@.subrange(0, k as int + 1).last() == other.types@[k as int]);
            }
            if !self.has_type(t.name()) {
                keep.push(t.clone());
            }
            k = k + 1;
        }
        proof {
            assert(other.types@.subrange(0, other.types@.len() as int) =~= other.types@);
        }
        let ghost before = self.types@;
        let mut idx: usize = 0;
        while idx < keep.len()
            invariant
                idx <= keep@.len(),
                self.types@.len() == before.len() + idx,
                self.types@.subrange(0, before.len() as int) == before,
                before == old(self).types@,
                forall|x: int| 0 <= x < keep@.len() ==> old(self).resolves(type_label(#[trigger] keep@[x])) is None,
                forall|x: int| 0 <= x < idx ==> type_label(#[trigger] self.types@[before.len() + x]) == type_label(keep@[x]),
                forall|x: int| 0 <= x < idx ==> same_type(#[trigger] self.types@[before.len() + x], keep@[x]),
            decreases keep.len() - idx,
        {
            let c = keep[idx].clone();
            self.types.push(c);
            assert(self.types@.subrange(0, before.len() as int) =~= before);
            idx = idx + 1;
        }
        proof {
            assert forall|k: int| old(self).types@.len() <= k < self.types@.len()
                implies old(self).resolves(type_label(#[trigger] self.types@[k])) is None by {
                let x = k - before.len();
                assert(type_label(self.types@[before.len() + x]) == type_label(keep@[x]));
            }
            let fr = fresh_types(old(self).types@, other.types@);
            assert forall|k: int| 0 <= k < fr.len()
                implies same_type(#[trigger] self.types@[old(self).types@.len() + k], fr[k]) by {
                assert(same_type(self.types@[before.len() + k], keep@[k]));
                assert(same_type(keep@[k], fr[k]));
            }
            let all = old(self).types@ + fr;
            assert forall|i: int| 0 <= i < self.types@.len() implies same_type(#[trigger] self.types@[i], all[i]) by {
                if i < before.len() {
                    assert(self.types@[i] == self.types@.subrange(0, before.len() as int)[i]);
                } else {
                    assert(same_type(self.types@[old(self).types@.len() + (i - before.len())], fr[i - before.len()]));
                }
            }
        }
        Ok(())
    }
}

/// Whether `a` and `b` are the same type: same name, same kind, and for
/// aliases the same target.
pub open spec fn same_type(a: Type, b: Type) -> bool {
    &&& type_label(a) == type_label(b)
    &&& (a is TypeDef) == (b is TypeDef)
    &&& a is TypeDef ==> a->TypeDef_1@ == b->TypeDef_1@
    &&& !(a is TypeDef) ==> a == b
}

/// The types of `other`, in order, whose names stand for nothing in `ts`.
pub open spec fn fresh_types(ts: Seq<Type>, other: Seq<Type>) -> Seq<Type>
    decreases other.len(),
{
    if other.len() == 0 {
        Seq::empty()
    } else if resolve(ts, type_label(other.last()), ts.len()) is None {
        fresh_types(ts, other.drop_last()).push(other.last())
    } else {
        fresh_types(ts, other.drop_last())
    }
}

/// Two aliases of one name that point at different types.
pub open spec fn conflicting(a: Type, b: Type) -> bool {
    a is TypeDef && b is TypeDef && a->TypeDef_0@ == b->TypeDef_0@ && a->TypeDef_1@ != b->TypeDef_1@
}

/// A function the program defines, or declares as external.
#[derive(Debug)]
pub struct Function {
    pub name: String,
    pub params: Vec<Param>,
    pub docstring: String,
    pub body: Vec<AST>,
    pub source_file: String,
    pub is_external: bool,
}

impl Function {
    pub fn new(name: String, params: Vec<Param>, docstring: String, body: Vec<AST>, source_file: &str) -> (r: Function)
        ensures
            r.name == name,
            r.params == params,
            r.docstring == docstring,
            r.body == body,
            r.source_file@ == source_file@,
            !r.is_external,
    {
        Function { name, params, docstring, body, source_file: owned(source_file), is_external: false }
    }

    /// A function declared as external: it has no body.
    pub fn external(name: String, params: Vec<Param>, docstring: String, source_file: &str) -> (r: Function)
        ensures
            r.name == name,
            r.params == params,
            r.docstring == docstring,
            r.body@.len() == 0,
            r.source_file@ == source_file@,
            r.is_external,
    {
        Function { name, params, docstring, body: Vec::new(), source_file: owned(source_file), is_external: true }
    }
}

/// The index of the last function named `name`: a later definition wins.
pub open spec fn fun_index(fs: Seq<Function>, name: Seq<char>) -> Option<int>
    decreases fs.len(),
{
    if fs.len() == 0 {
        None
    } else if fs.last().name@ == name {
        Some(fs.len() - 1)
    } else {
        fun_index(fs.drop_last(), name)
    }
}

proof fn lemma_fun_index(fs: Seq<Function>, name: Seq<char>)
    ensures
        fun_index(fs, name) matches Some(i) ==> 0 <= i < fs.len() && fs[i].name@ == name
            && forall|k: int| i < k < fs.len() ==> (#[trigger] fs[k]).name@ != name,
        fun_index(fs, name) is None ==> forall|k: int| 0 <= k < fs.len() ==> (#[trigger] fs[k]).name@ != name,
    decreases fs.len(),
{
    if fs.len() > 0 {
        lemma_fun_index(fs.drop_last(), name);
        assert(forall|k: int| 0 <= k < fs.len() - 1 ==> fs.drop_last()[k] == fs[k]);
    }
}

/// The table of functions.
#[derive(Debug)]
pub struct FunTable {
    pub funs: Vec<Function>,
}

impl FunTable {
    pub fn new(funs: Vec<Function>) -> (r: FunTable)
        ensures
            r.funs == funs,
    {
        FunTable { funs }
    }

    /// Appends functions at the end of the table.
    pub fn append(&mut self, funs: Vec<Function>)
        ensures
            final(self).funs@ == old(self).funs@ + funs@,
    {
        let mut funs = funs;
        self.funs.append(&mut funs);
    }

    /// Appends the functions of `other` at the end of the table.
    pub fn merge(&mut self, other: FunTable)
        ensures
            final(self).funs@ == old(self).funs@ + other.funs@,
    {
        self.append(other.funs);
    }

    /// The index of the function `name` names, where one does.
    pub fn find_fun(&self, name: &str) -> (r: Option<usize>)
        ensures
            r matches Some(i) ==> fun_index(self.funs@, name@) == Some(i as int),
            r is None ==> fun_index(self.funs@, name@) is None,
    {
        proof {
            lemma_fun_index(self.funs@, name@);
        }
        let n = owned(name);
        let mut i: usize = self.funs.len();
        while i > 0
            invariant
                i <= self.funs@.len(),
                n@ == name@,
                forall|k: int| i <= k < self.funs@.len() ==> (#[trigger] self.funs@[k]).name@ != name@,
            decreases i,
        {
            proof {
                lemma_fun_index(self.funs@, name@);
            }
            if self.funs[i - 1].name.eq(&n) {
                return Some(i - 1);
            }
            i = i - 1;
        }
        None
    }

    /// Whether a function is named `name`.
    pub fn has_fun(&self, name: &str) -> (r: bool)
        ensures
            r == fun_index(self.funs@, name@) is Some,
    {
        self.find_fun(name).is_some()
    }

    /// The function `name` names; the last one where several do.
    pub fn get_fun(&self, name: &str) -> (r: Option<&Function>)
        ensures
            match fun_index(self.funs@, name@) {
                Some(i) => r == Some(&self.funs@[i]),
                None => r is None,
            },
    {
        proof {
            lemma_fun_index(self.funs@, name@);
        }
        match self.find_fun(name) {
            Some(i) => Some(&self.funs[i]),
            None => None,
        }
    }
}

/// Whether two tables hold the same types, entry by entry.
pub open spec fn same_types(a: Seq<Type>, b: Seq<Type>) -> bool {
    a.len() == b.len() && forall|i: int| 0 <= i < a.len() ==> same_type(#[trigger] a[i], b[i])
}

/// What merging `other` into `ts` gives: `None` on a conflict, else `ts`
/// and the types of `other` whose names it lacks.
pub open spec fn merge_spec(ts: Seq<Type>, other: Seq<Type>) -> Option<Seq<Type>> {
    if exists|i: int, j: int| 0 <= i < other.len() && 0 <= j < ts.len() && #[trigger] conflicting(other[i], ts[j]) {
        None
    } else {
        Some(ts + fresh_types(ts, other))
    }
}

pub proof fn lemma_same_find(a: Seq<Type>, b: Seq<Type>, n: Seq<char>)
    requires
        same_types(a, b),
    ensures
        find_type(a, n) == find_type(b, n),
    decreases a.len(),
{
    if a.len() > 0 {
        assert(same_type(a[a.len() - 1], b[b.len() - 1]));
        assert forall|i: int| 0 <= i < a.len() - 1 implies same_type(#[trigger] a.drop_last()[i], b.drop_last()[i]) by {
            assert(same_type(a[i], b[i]));
        }
        lemma_same_find(a.drop_last(), b.drop_last(), n);
    }
}

pub proof fn lemma_same_resolve(a: Seq<Type>, b: Seq<Type>, n: Seq<char>, f: nat)
    requires
        same_types(a, b),
    ensures
        resolve(a, n, f) == resolve(b, n, f),
    decreases f,
{
    lemma_same_find(a, b, n);
    lemma_find_type(a, n);
    if let Some(i) = find_type(a, n) {
        assert(same_type(a[i], b[i]));
        if a[i] is TypeDef && f > 0 {
            lemma_same_resolve(a, b, a[i]->TypeDef_1@, (f - 1) as nat);
        }
    }
}

pub proof fn lemma_same_fresh(a: Seq<Type>, b: Seq<Type>, o: Seq<Type>)
    requires
        same_types(a, b),
    ensures
        fresh_types(a, o) == fresh_types(b, o),
    decreases o.len(),
{
    if o.len() > 0 {
        lemma_same_fresh(a, b, o.drop_last());
        lemma_same_resolve(a, b, type_label(o.last()), a.len());
    }
}

/// Merging into tables with the same types gives the same outcome.
pub proof fn lemma_same_merge(a: Seq<Type>, b: Seq<Type>, o: Seq<Type>)
    requires
        same_types(a, b),
    ensures
        merge_spec(a, o) is Some <==> merge_spec(b, o) is Some,
        merge_spec(b, o) matches Some(y) ==> same_types(a + fresh_types(a, o), y),
{
    lemma_same_fresh(a, b, o);
    if exists|i: int, j: int| 0 <= i < o.len() && 0 <= j < a.len() && #[trigger] conflicting(o[i], a[j]) {
        let (i, j) = choose|i: int, j: int| 0 <= i < o.len() && 0 <= j < a.len() && #[trigger] conflicting(o[i], a[j]);
        assert(same_type(a[j], b[j]));
        assert(conflicting(o[i], b[j]));
    }
    if exists|i: int, j: int| 0 <= i < o.len() && 0 <= j < b.len() && #[trigger] conflicting(o[i], b[j]) {
        let (i, j) = choose|i: int, j: int| 0 <= i < o.len() && 0 <= j < b.len() && #[trigger] conflicting(o[i], b[j]);
        assert(same_type(a[j], b[j]));
        assert(conflicting(o[i], a[j]));
    }
    let fr = fresh_types(a, o);
    assert forall|i: int| 0 <= i < a.len() + fr.len() implies same_type(#[trigger] (a + fr)[i], (b + fr)[i]) by {
        if i < a.len() {
            assert(same_type(a[i], b[i]));
        }
    }
}

} // verus!
