//! Run-time values of the machine.

use vstd::prelude::*;
use crate::num::{Num, num_text};
use crate::text::{owned, push_str};

verus! {

/// A value on the machine's stack or in a variable.
#[derive(Debug)]
pub enum Value {
    String(String),
    Number(Num),
    /// A name whose value is looked up when it is pushed.
    Identifier(String),
    List(Vec<Value>),
    Boolean(bool),
    /// Marks the start of a variable-length run of arguments; holds the
    /// number of instructions that pushed the run.
    StartArgs(i64),
    /// Marks the end of a variable-length run of arguments.
    EndArgs,
}

/// The mathematical content of a [`Value`].
pub enum ValueV {
    Str(Seq<char>),
    Number(Num),
    Ident(Seq<char>),
    List(Seq<ValueV>),
    Boolean(bool),
    StartArgs(i64),
    EndArgs,
}

pub open spec fn view_of(v: Value) -> ValueV
    decreases v,
{
    match v {
        Value::String(s) => ValueV::Str(s@),
        Value::Number(n) => ValueV::Number(n),
        Value::Identifier(s) => ValueV::Ident(s@),
        Value::List(l) => ValueV::List(
            Seq::new(
                l@.len(),
                |i: int|
                    if 0 <= i < l@.len() {
                        view_of(l@[i])
                    } else {
                        ValueV::EndArgs
                    },
            ),
        ),
        Value::Boolean(b) => ValueV::Boolean(b),
        Value::StartArgs(n) => ValueV::StartArgs(n),
        Value::EndArgs => ValueV::EndArgs,
    }
}

/// The views of a sequence of values.
pub open spec fn views(l: Seq<Value>) -> Seq<ValueV> {
    Seq::new(l.len(), |i: int| view_of(l[i]))
}

impl View for Value {
    type V = ValueV;

    open spec fn view(&self) -> ValueV {
        view_of(*self)
    }
}

pub proof fn lemma_list_view(l: Vec<Value>)
    ensures
        view_of(Value::List(l)) == ValueV::List(views(l@)),
{
    assert(view_of(Value::List(l)) is List);
    assert(view_of(Value::List(l))->List_0 =~= views(l@));
}

/// The text form of a value: strings and names as they are, numbers and
/// booleans as text, lists as the concatenation of their items' texts.
pub open spec fn text_of(v: ValueV) -> Seq<char>
    decreases v, 0nat,
{
    match v {
        ValueV::Str(s) => s,
        ValueV::Number(n) => num_text(n),
        ValueV::Ident(s) => s,
        ValueV::Boolean(b) => if b { "true"@ } else { "false"@ },
        ValueV::List(l) => texts(l, l.len()),
        _ => Seq::empty(),
    }
}

/// The concatenated texts of the first `n` items of `l`.
pub open spec fn texts(l: Seq<ValueV>, n: nat) -> Seq<char>
    decreases l, n,
{
    if n == 0 || n > l.len() {
        Seq::empty()
    } else {
        texts(l, (n - 1) as nat) + text_of(l[n - 1])
    }
}

pub open spec fn is_listy_v(v: ValueV) -> bool {
    v is Str || v is List
}

/// Whether a value counts as false for a conditional jump; `None` where it
/// is neither true nor false.
pub open spec fn falsy(v: ValueV) -> Option<bool> {
    match v {
        ValueV::Number(n) => Some(n.num == 0),
        ValueV::Str(s) => Some(s.len() == 0),
        ValueV::List(l) => Some(l.len() == 0),
        ValueV::Boolean(b) => Some(!b),
        _ => None,
    }
}

impl Clone for Value {
    fn clone(&self) -> (r: Value)
        ensures
            r@ == self@,
        decreases self,
    {
        match self {
            Value::String(s) => Value::String(s.clone()),
            Value::Number(n) => Value::Number(*n),
            Value::Identifier(s) => Value::Identifier(s.clone()),
            Value::List(l) => {
                let mut out: Vec<Value> = Vec::new();
                let mut i: usize = 0;
                while i < l.len()
                    invariant
                        i <= l.len(),
                        out@.len() == i,
                        forall|k: int| 0 <= k < i ==> out@[k]@ == l@[k]@,
                        self->List_0 == *l,
                        *self is List,
                    decreases l.len() - i,
                {
                    proof {
                        assert(decreases_to!(*self => self->List_0));
                        assert(decreases_to!(self->List_0 => self->List_0@));
                        assert(decreases_to!(self->List_0@ => self->List_0@[i as int]));
                        assert(decreases_to!(*self => l@[i as int]));
                    }
                    let c = l[i].clone();
                    out.push(c);
                    i = i + 1;
                }
                proof {
                    lemma_list_view(*l);
                    lemma_list_view(out);
                    assert(views(out@) =~= views(l@));
                }
                Value::List(out)
            },
            Value::Boolean(b) => Value::Boolean(*b),
            Value::StartArgs(n) => Value::StartArgs(*n),
            Value::EndArgs => Value::EndArgs,
        }
    }
}

impl PartialEq for Value {
    fn eq(&self, o: &Value) -> (r: bool)
        decreases self,
    {
        match (self, o) {
            (Value::String(a), Value::String(b)) => a.eq(b),
            (Value::Number(a), Value::Number(b)) => a.num == b.num && a.den == b.den,
            (Value::Identifier(a), Value::Identifier(b)) => a.eq(b),
            (Value::Boolean(a), Value::Boolean(b)) => *a == *b,
            (Value::StartArgs(a), Value::StartArgs(b)) => *a == *b,
            (Value::EndArgs, Value::EndArgs) => true,
            (Value::List(a), Value::List(b)) => {
                proof {
                    lemma_list_view(*a);
                    lemma_list_view(*b);
                }
                if a.len() != b.len() {
                    assert(views(a@).len() != views(b@).len());
                    return false;
                }
                let mut i: usize = 0;
                while i < a.len()
                    invariant
                        i <= a.len(),
                        a.len() == b.len(),
                        forall|k: int| 0 <= k < i ==> a@[k]@ == b@[k]@,
                        self@ == ValueV::List(views(a@)),
                        o@ == ValueV::List(views(b@)),
                        self->List_0 == *a,
                    decreases a.len() - i,
                {
                    proof {
                        assert(decreases_to!(*self => self->List_0));
                        assert(decreases_to!(self->List_0 => self->List_0@));
                        assert(decreases_to!(self->List_0@ => self->List_0@[i as int]));
                        assert(decreases_to!(*self => a@[i as int]));
                    }
                    if !a[i].eq(&b[i]) {
                        assert(views(a@)[i as int] != views(b@)[i as int]);
                        return false;
                    }
                    i = i + 1;
                }
                assert(views(a@) =~= views(b@));
                true
            },
            _ => false,
        }
    }
}

impl vstd::std_specs::cmp::PartialEqSpecImpl for Value {
    open spec fn obeys_eq_spec() -> bool {
        true
    }

    open spec fn eq_spec(&self, o: &Value) -> bool {
        self@ == o@
    }
}

impl Value {
    /// Whether the value is a string or a list.
    pub fn is_listy(&self) -> (r: bool)
        ensures
            r == is_listy_v(self@),
    {
        match self {
            Value::String(_) | Value::List(_) => true,
            _ => false,
        }
    }

    pub fn is_list(&self) -> (r: bool)
        ensures
            r == (self@ is List),
    {
        match self {
            Value::List(_) => true,
            _ => false,
        }
    }

    pub fn is_string(&self) -> (r: bool)
        ensures
            r == (self@ is Str),
    {
        match self {
            Value::String(_) => true,
            _ => false,
        }
    }

    pub fn is_number(&self) -> (r: bool)
        ensures
            r == (self@ is Number),
    {
        match self {
            Value::Number(_) => true,
            _ => false,
        }
    }

    pub fn is_end_args(&self) -> (r: bool)
        ensures
            r == (self@ is EndArgs),
    {
        match self {
            Value::EndArgs => true,
            _ => false,
        }
    }

    /// The name of the value's kind.
    pub fn type_str(&self) -> (r: &'static str)
        ensures
            r@ == kind_name(self@),
    {
        match self {
            Value::String(_) => "string",
            Value::List(_) => "list",
            Value::Number(_) => "number",
            Value::Identifier(_) => "identifier",
            Value::Boolean(_) => "boolean",
            Value::StartArgs(_) => "startargs",
            Value::EndArgs => "endargs",
        }
    }

    /// The items of a list.
    pub fn into_list(self) -> (r: Vec<Value>)
        requires
            self is List,
        ensures
            self@ == ValueV::List(views(r@)),
    {
        proof {
            lemma_list_view(self->List_0);
        }
        match self {
            Value::List(v) => v,
            _ => Vec::new(),
        }
    }

    /// The text of a string value.
    pub fn string(&self) -> (r: &str)
        requires
            self is String,
        ensures
            self@ == ValueV::Str(r@),
    {
        match self {
            Value::String(s) => s.as_str(),
            _ => "",
        }
    }

    /// The number a number value holds.
    pub fn number(&self) -> (r: Num)
        requires
            self is Number,
        ensures
            self@ == ValueV::Number(r),
    {
        match self {
            Value::Number(n) => *n,
            _ => Num::from_int(0),
        }
    }

    /// The count a start-of-arguments marker holds.
    pub fn start_args(&self) -> (r: i64)
        requires
            self is StartArgs,
        ensures
            self@ == ValueV::StartArgs(r),
    {
        match self {
            Value::StartArgs(n) => *n,
            _ => 0,
        }
    }
}

pub open spec fn kind_name(v: ValueV) -> Seq<char> {
    match v {
        ValueV::Str(_) => "string"@,
        ValueV::List(_) => "list"@,
        ValueV::Number(_) => "number"@,
        ValueV::Ident(_) => "identifier"@,
        ValueV::Boolean(_) => "boolean"@,
        ValueV::StartArgs(_) => "startargs"@,
        ValueV::EndArgs => "endargs"@,
    }
}

/// The text form of a value (see [`text_of`]).
pub fn value_to_string(val: &Value) -> (r: String)
    ensures
        r@ == text_of(val@),
    decreases val,
{
    match val {
        Value::String(s) => s.clone(),
        Value::Number(n) => n.text(),
        Value::Identifier(s) => s.clone(),
        Value::Boolean(b) => if *b { owned("true") } else { owned("false") },
        Value::List(l) => {
            proof {
                lemma_list_view(*l);
            }
            let mut out = String::new();
            let mut i: usize = 0;
            while i < l.len()
                invariant
                    i <= l.len(),
                    view_of(*val) == ValueV::List(views(l@)),
                    out@ == texts(views(l@), i as nat),
                    val->List_0 == *l,
                decreases l.len() - i,
            {
                proof {
                    assert(decreases_to!(*val => val->List_0));
                    assert(decreases_to!(val->List_0 => val->List_0@));
                    assert(decreases_to!(val->List_0@ => val->List_0@[i as int]));
                    assert(decreases_to!(*val => l@[i as int]));
                }
                let t = value_to_string(&l[i]);
                push_str(&mut out, t.as_str());
                i = i + 1;
            }
            out
        },
        _ => String::new(),
    }
}

} // verus!
