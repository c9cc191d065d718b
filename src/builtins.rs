//! The intrinsic functions: operations on the value stack that the machine
//! carries out itself.

use vstd::prelude::*;
use crate::error::{Error, ErrorKind};
use crate::num::{Num, spec_add, spec_sub, spec_mul, spec_div};
use crate::text::{chars_of, owned, push_char, push_str, string_of};
use crate::value::{Value, ValueV, views, text_of, value_to_string};
use crate::vm::{VM, StackOutcome, outcome, stack_v, only_stack_changed, HostCall, mode_flags, mode_flags_spec};

verus! {

/// An arithmetic operation.
#[derive(PartialEq, Eq, Structural, Clone, Copy, Debug)]
pub enum NumOp {
    Add,
    Sub,
    Mul,
    Div,
}

pub open spec fn apply(op: NumOp, a: Num, b: Num) -> Option<Num> {
    match op {
        NumOp::Add => spec_add(a, b),
        NumOp::Sub => spec_sub(a, b),
        NumOp::Mul => spec_mul(a, b),
        NumOp::Div => spec_div(a, b),
    }
}

/// `a op b` for the two numbers on top of the stack, `b` on top.
pub open spec fn num_result(s: Seq<ValueV>, op: NumOp) -> StackOutcome {
    if s.len() < 2 {
        Err(ErrorKind::StackEmpty)
    } else {
        let a = s[s.len() - 2];
        let b = s[s.len() - 1];
        if a is Number && b is Number {
            match apply(op, a->Number_0, b->Number_0) {
                Some(x) => Ok(s.subrange(0, s.len() - 2).push(ValueV::Number(x))),
                None => Err(ErrorKind::Arithmetic),
            }
        } else {
            Err(ErrorKind::WrongType)
        }
    }
}

/// Whether the two values on top of the stack are equal.
pub open spec fn equals_result(s: Seq<ValueV>) -> StackOutcome {
    if s.len() < 2 {
        Err(ErrorKind::StackEmpty)
    } else {
        Ok(s.subrange(0, s.len() - 2).push(ValueV::Boolean(s[s.len() - 2] == s[s.len() - 1])))
    }
}

/// The text form of the top value.
pub open spec fn string_result(s: Seq<ValueV>) -> StackOutcome {
    if s.len() < 1 {
        Err(ErrorKind::StackEmpty)
    } else {
        Ok(s.drop_last().push(ValueV::Str(text_of(s.last()))))
    }
}

/// Whether the top value, a string or list, is empty.
pub open spec fn nil_result(s: Seq<ValueV>) -> StackOutcome {
    if s.len() < 1 {
        Err(ErrorKind::StackEmpty)
    } else {
        match s.last() {
            ValueV::Str(t) => Ok(s.drop_last().push(ValueV::Boolean(t.len() == 0))),
            ValueV::List(l) => Ok(s.drop_last().push(ValueV::Boolean(l.len() == 0))),
            _ => Err(ErrorKind::WrongType),
        }
    }
}

/// The top value, a string or list, without its first item.
pub open spec fn cdr_result(s: Seq<ValueV>) -> StackOutcome {
    if s.len() < 1 {
        Err(ErrorKind::StackEmpty)
    } else {
        match s.last() {
            ValueV::Str(t) => Ok(s.drop_last().push(ValueV::Str(if t.len() > 0 { t.drop_first() } else { t }))),
            ValueV::List(l) => Ok(s.drop_last().push(ValueV::List(if l.len() > 0 { l.drop_first() } else { l }))),
            _ => Err(ErrorKind::WrongType),
        }
    }
}

/// The first item of the top value: a one-character string of a string,
/// the first item of a list; empty of the same kind where it is empty.
pub open spec fn car_result(s: Seq<ValueV>) -> StackOutcome {
    if s.len() < 1 {
        Err(ErrorKind::StackEmpty)
    } else {
        match s.last() {
            ValueV::Str(t) => Ok(s.drop_last().push(ValueV::Str(if t.len() > 0 { seq![t[0]] } else { t }))),
            ValueV::List(l) => Ok(s.drop_last().push(if l.len() > 0 { l[0] } else { ValueV::List(l) })),
            _ => Err(ErrorKind::WrongType),
        }
    }
}

/// The value under the top joined with the top: two strings or two lists.
pub open spec fn append_result(s: Seq<ValueV>) -> StackOutcome {
    if s.len() < 2 {
        Err(ErrorKind::StackEmpty)
    } else {
        let first = s[s.len() - 1];
        let second = s[s.len() - 2];
        let rest = s.subrange(0, s.len() - 2);
        match (second, first) {
            (ValueV::Str(a), ValueV::Str(b)) => Ok(rest.push(ValueV::Str(a + b))),
            (ValueV::List(a), ValueV::List(b)) => Ok(rest.push(ValueV::List(a + b))),
            _ => Err(ErrorKind::WrongType),
        }
    }
}

/// Pops values into a list until the end marker or until more than `n`
/// have been taken; `items` holds those taken so far.
pub open spec fn collect_args(s: Seq<ValueV>, n: int, items: Seq<ValueV>) -> Result<(Seq<ValueV>, Seq<ValueV>), ErrorKind>
    decreases s.len(),
{
    if n < 0 {
        Ok((s, items))
    } else if s.len() == 0 {
        Err(ErrorKind::StackEmpty)
    } else if s.last() is EndArgs {
        Ok((s.drop_last(), items))
    } else {
        collect_args(s.drop_last(), n - 1, items.push(s.last()))
    }
}

/// The list of the arguments between the start marker on top of the stack
/// and the end marker under them.
pub open spec fn list_result(s: Seq<ValueV>) -> StackOutcome {
    if s.len() < 1 {
        Err(ErrorKind::StackEmpty)
    } else {
        match s.last() {
            ValueV::StartArgs(n) => match collect_args(s.drop_last(), n as int, Seq::empty()) {
                Ok((rest, items)) => Ok(rest.push(ValueV::List(items))),
                Err(k) => Err(k),
            },
            _ => Err(ErrorKind::WrongType),
        }
    }
}

fn numeric(v: &mut VM, op: NumOp) -> (r: Result<(), Error>)
    ensures
        outcome(*old(v), *final(v), r, num_result(stack_v(*old(v)), op)),
{
    if v.value_stack.len() < 2 {
        return Err(Error::new(ErrorKind::StackEmpty, "attempted to pop a value off of an empty value stack"));
    }
    let right_val = v.pop_value().unwrap();
    let left_val = v.pop_value().unwrap();
    proof {
        assert(stack_v(*v) =~= stack_v(*old(v)).subrange(0, stack_v(*old(v)).len() - 2));
    }
    match (&left_val, &right_val) {
        (Value::Number(a), Value::Number(b)) => {
            let x = match op {
                NumOp::Add => a.add(b),
                NumOp::Sub => a.sub(b),
                NumOp::Mul => a.mul(b),
                NumOp::Div => a.div(b),
            };
            match x {
                Some(n) => {
                    v.push(Value::Number(n));
                    Ok(())
                },
                None => Err(Error::new(ErrorKind::Arithmetic, "arithmetic overflow or division by zero")),
            }
        },
        _ => Err(Error::new(ErrorKind::WrongType, "arithmetic functions may only be used on numbers")),
    }
}

/// `+`: the sum of the two numbers on top of the stack.
pub fn plus(v: &mut VM) -> (r: Result<(), Error>)
    ensures
        outcome(*old(v), *final(v), r, num_result(stack_v(*old(v)), NumOp::Add)),
{
    numeric(v, NumOp::Add)
}

/// `-`: the number under the top minus the top.
pub fn minus(v: &mut VM) -> (r: Result<(), Error>)
    ensures
        outcome(*old(v), *final(v), r, num_result(stack_v(*old(v)), NumOp::Sub)),
{
    numeric(v, NumOp::Sub)
}

/// `*`: the product of the two numbers on top of the stack.
pub fn times(v: &mut VM) -> (r: Result<(), Error>)
    ensures
        outcome(*old(v), *final(v), r, num_result(stack_v(*old(v)), NumOp::Mul)),
{
    numeric(v, NumOp::Mul)
}

/// `/`: the number under the top divided by the top.
pub fn divide(v: &mut VM) -> (r: Result<(), Error>)
    ensures
        outcome(*old(v), *final(v), r, num_result(stack_v(*old(v)), NumOp::Div)),
{
    numeric(v, NumOp::Div)
}

/// `=`: whether the two values on top of the stack are equal.
pub fn equals(v: &mut VM) -> (r: Result<(), Error>)
    ensures
        outcome(*old(v), *final(v), r, equals_result(stack_v(*old(v)))),
{
    if v.value_stack.len() < 2 {
        return Err(Error::new(ErrorKind::StackEmpty, "attempted to pop a value off of an empty value stack"));
    }
    let first = v.pop_value().unwrap();
    let second = v.pop_value().unwrap();
    proof {
        assert(stack_v(*v) =~= stack_v(*old(v)).subrange(0, stack_v(*old(v)).len() - 2));
    }
    let same = first.eq(&second);
    v.push(Value::Boolean(same));
    Ok(())
}

/// `string`: the text form of the top value.
pub fn string(v: &mut VM) -> (r: Result<(), Error>)
    ensures
        outcome(*old(v), *final(v), r, string_result(stack_v(*old(v)))),
{
    let item = v.pop_value()?;
    let t = value_to_string(&item);
    v.push(Value::String(t));
    Ok(())
}

/// `nil?`: whether the top value, a string or list, is empty.
pub fn is_nil(v: &mut VM) -> (r: Result<(), Error>)
    ensures
        outcome(*old(v), *final(v), r, nil_result(stack_v(*old(v)))),
{
    let first = v.pop_value()?;
    match &first {
        Value::String(s) => {
            let n = chars_of(s.as_str()).len();
            v.push(Value::Boolean(n == 0));
            Ok(())
        },
        Value::List(l) => {
            proof {
                crate::value::lemma_list_view(*l);
            }
            v.push(Value::Boolean(l.len() == 0));
            Ok(())
        },
        _ => Err(Error::with_detail(ErrorKind::WrongType, "argument to `nil?' function must be listy (instead got ", first.type_str())),
    }
}

/// `cdr`: the top value, a string or list, without its first item.
pub fn cdr(v: &mut VM) -> (r: Result<(), Error>)
    ensures
        outcome(*old(v), *final(v), r, cdr_result(stack_v(*old(v)))),
{
    let first = v.pop_value()?;
    match first {
        Value::String(s) => {
            let mut cs = chars_of(s.as_str());
            if cs.len() > 0 {
                cs.remove(0);
            }
            let t = string_of(&cs);
            proof {
                assert(cs@ =~= if s@.len() > 0 { s@.drop_first() } else { s@ });
            }
            v.push(Value::String(t));
            Ok(())
        },
        Value::List(l) => {
            proof {
                crate::value::lemma_list_view(l);
            }
            let mut l = l;
            let ghost lv = views(l@);
            if l.len() > 0 {
                l.remove(0);
            }
            proof {
                crate::value::lemma_list_view(l);
                assert(views(l@) =~= if lv.len() > 0 { lv.drop_first() } else { lv });
            }
            v.push(Value::List(l));
            Ok(())
        },
        _ => Err(Error::new(ErrorKind::WrongType, "argument to `cdr' function must be listy")),
    }
}

/// `car`: the first item of the top value.
pub fn car(v: &mut VM) -> (r: Result<(), Error>)
    ensures
        outcome(*old(v), *final(v), r, car_result(stack_v(*old(v)))),
{
    let first = v.pop_value()?;
    match first {
        Value::String(s) => {
            let cs = chars_of(s.as_str());
            let mut t = String::new();
            if cs.len() > 0 {
                push_char(&mut t, cs[0]);
            }
            proof {
                assert(t@ =~= if s@.len() > 0 { seq![s@[0]] } else { s@ });
            }
            v.push(Value::String(t));
            Ok(())
        },
        Value::List(l) => {
            proof {
                crate::value::lemma_list_view(l);
            }
            let mut l = l;
            if l.len() > 0 {
                let e = l.remove(0);
                v.push(e);
            } else {
                proof {
                    crate::value::lemma_list_view(l);
                }
                v.push(Value::List(l));
            }
            Ok(())
        },
        _ => Err(Error::new(ErrorKind::WrongType, "argument to `car' function must be listy")),
    }
}

/// `append`: the value under the top joined with the top.
pub fn append(v: &mut VM) -> (r: Result<(), Error>)
    ensures
        outcome(*old(v), *final(v), r, append_result(stack_v(*old(v)))),
{
    if v.value_stack.len() < 2 {
        return Err(Error::new(ErrorKind::StackEmpty, "attempted to pop a value off of an empty value stack"));
    }
    let first = v.pop_value().unwrap();
    let second = v.pop_value().unwrap();
    proof {
        assert(stack_v(*v) =~= stack_v(*old(v)).subrange(0, stack_v(*old(v)).len() - 2));
    }
    match (second, first) {
        (Value::String(a), Value::String(b)) => {
            let mut t = a;
            push_str(&mut t, b.as_str());
            v.push(Value::String(t));
            Ok(())
        },
        (Value::List(a), Value::List(b)) => {
            proof {
                crate::value::lemma_list_view(a);
                crate::value::lemma_list_view(b);
            }
            let ghost av = views(a@);
            let ghost bv = views(b@);
            let mut a = a;
            let mut b = b;
            a.append(&mut b);
            proof {
                crate::value::lemma_list_view(a);
                assert(views(a@) =~= av + bv);
            }
            v.push(Value::List(a));
            Ok(())
        },
        _ => Err(Error::new(ErrorKind::WrongType, "append takes two strings or two lists")),
    }
}

/// `list`: gathers the arguments between the start marker on top of the
/// stack and the end marker under them into a list.
pub fn list(v: &mut VM) -> (r: Result<(), Error>)
    ensures
        outcome(*old(v), *final(v), r, list_result(stack_v(*old(v)))),
{
    let marker = v.pop_value()?;
    let mut arg_count: i64 = match marker {
        Value::StartArgs(n) => n,
        _ => {
            return Err(Error::new(ErrorKind::WrongType, "VM error: expected the start of a list of arguments"));
        },
    };
    let ghost s0 = stack_v(*v);
    let ghost n0 = arg_count as int;
    let mut result_list: Vec<Value> = Vec::new();
    proof {
        assert(views(result_list@) =~= Seq::<ValueV>::empty());
    }
    loop
        invariant_except_break
            collect_args(s0, n0, Seq::empty()) == collect_args(stack_v(*v), arg_count as int, views(result_list@)),
        invariant
            only_stack_changed(*old(v), *v),
            stack_v(*old(v)).len() >= 1,
            stack_v(*old(v)).last() == ValueV::StartArgs(n0 as i64),
            s0 == stack_v(*old(v)).drop_last(),
            i64::MIN <= n0 <= i64::MAX,
        ensures
            collect_args(s0, n0, Seq::empty()) == Ok::<(Seq<ValueV>, Seq<ValueV>), ErrorKind>((stack_v(*v), views(result_list@))),
        decreases v.value_stack@.len(),
    {
        if arg_count < 0 {
            break;
        }
        if v.peek_value().is_none() {
            assert(stack_v(*v).len() == 0);
            return Err(Error::new(ErrorKind::StackEmpty, "VM error: unexpected end of value stack when popping var args"));
        }
        let value = v.pop_value().unwrap();
        if value.is_end_args() {
            break;
        }
        let ghost rb = views(result_list@);
        result_list.push(value);
        assert(views(result_list@) =~= rb.push(value@));
        arg_count = arg_count - 1;
    }
    proof {
        crate::value::lemma_list_view(result_list);
    }
    v.push(Value::List(result_list));
    Ok(())
}

/// `(= x x)` is true, and `(= x y)` is `(= y x)`.
pub proof fn lemma_equals_laws(s: Seq<ValueV>, x: ValueV, y: ValueV)
    ensures
        equals_result(s.push(x).push(x)) == Ok::<Seq<ValueV>, ErrorKind>(s.push(ValueV::Boolean(true))),
        equals_result(s.push(x).push(y)) == equals_result(s.push(y).push(x)),
{
    let a = s.push(x).push(x);
    assert(a.subrange(0, a.len() - 2) =~= s);
    let b = s.push(x).push(y);
    let c = s.push(y).push(x);
    assert(b.subrange(0, b.len() - 2) =~= s);
    assert(c.subrange(0, c.len() - 2) =~= s);
}

/// A whole number in a value: the number, where the value is a number
/// whose denominator is one.
pub open spec fn whole(v: ValueV) -> Option<i64> {
    match v {
        ValueV::Number(n) => if n.den == 1 { Some(n.num) } else { None },
        _ => None,
    }
}

fn whole_of(v: &Value) -> (r: Option<i64>)
    ensures
        r == whole(v@),
{
    match v {
        Value::Number(n) => if n.den == 1 { Some(n.num) } else { None },
        _ => None,
    }
}

/// `stdopen`: pops a mode and, under it, a path; both strings, the mode
/// one of those [`mode_flags`] knows.
pub fn rasp_open(v: &mut VM) -> (r: Result<HostCall, Error>)
    ensures
        ({
            let s = stack_v(*old(v));
            if s.len() < 2 {
                r is Err
            } else {
                let mode = s[s.len() - 1];
                let path = s[s.len() - 2];
                if mode is Str && path is Str && mode_flags_spec(mode->Str_0) is Some {
                    r matches Ok(HostCall::Open { path: p, flags: f }) && p@ == path->Str_0
                        && f == mode_flags_spec(mode->Str_0)->0
                        && stack_v(*final(v)) == s.subrange(0, s.len() - 2)
                } else {
                    r matches Err(e) && e.kind == ErrorKind::WrongType
                }
            }
        }),
{
    if v.value_stack.len() < 2 {
        return Err(Error::new(ErrorKind::StackEmpty, "attempted to pop a value off of an empty value stack"));
    }
    let mode_val = v.pop_value().unwrap();
    let path_val = v.pop_value().unwrap();
    proof {
        assert(stack_v(*v) =~= stack_v(*old(v)).subrange(0, stack_v(*old(v)).len() - 2));
    }
    match (mode_val, path_val) {
        (Value::String(mode), Value::String(path)) => {
            match mode_flags(mode.as_str()) {
                Some(flags) => Ok(HostCall::Open { path, flags }),
                None => Err(Error::with_detail(ErrorKind::WrongType, "unknown file mode ", mode.as_str())),
            }
        },
        (Value::String(_), _) => Err(Error::new(ErrorKind::WrongType, "file path must be a string")),
        _ => Err(Error::new(ErrorKind::WrongType, "file mode must be a string")),
    }
}

/// `stdclose`: pops a file descriptor, a whole number.
pub fn rasp_close(v: &mut VM) -> (r: Result<HostCall, Error>)
    ensures
        ({
            let s = stack_v(*old(v));
            if s.len() < 1 {
                r is Err
            } else {
                match whole(s.last()) {
                    Some(fd) => r matches Ok(HostCall::Close { fd: x }) && x == fd
                        && stack_v(*final(v)) == s.drop_last(),
                    None => r matches Err(e) && e.kind == ErrorKind::WrongType,
                }
            }
        }),
{
    let fd_val = v.pop_value()?;
    match whole_of(&fd_val) {
        Some(fd) => Ok(HostCall::Close { fd }),
        None => Err(Error::new(ErrorKind::WrongType, "file descriptor must be an integer")),
    }
}

/// `stdwrite`: pops a string to write and, under it, a file descriptor, a
/// whole number that is not negative.
pub fn rasp_write(v: &mut VM) -> (r: Result<HostCall, Error>)
    ensures
        ({
            let s = stack_v(*old(v));
            if s.len() < 2 {
                r is Err
            } else {
                let buffer = s[s.len() - 1];
                let fd = whole(s[s.len() - 2]);
                if buffer is Str && fd is Some && fd->0 >= 0 {
                    r matches Ok(HostCall::Write { fd: x, buffer: b }) && x == fd->0 && b@ == buffer->Str_0
                        && stack_v(*final(v)) == s.subrange(0, s.len() - 2)
                } else {
                    r matches Err(e) && e.kind == ErrorKind::WrongType
                }
            }
        }),
{
    if v.value_stack.len() < 2 {
        return Err(Error::new(ErrorKind::StackEmpty, "attempted to pop a value off of an empty value stack"));
    }
    let buffer_val = v.pop_value().unwrap();
    let fd_val = v.pop_value().unwrap();
    proof {
        assert(stack_v(*v) =~= stack_v(*old(v)).subrange(0, stack_v(*old(v)).len() - 2));
    }
    let buffer = match buffer_val {
        Value::String(b) => b,
        _ => {
            return Err(Error::new(ErrorKind::WrongType, "buffer must be a string"));
        },
    };
    match whole_of(&fd_val) {
        Some(fd) => {
            if fd < 0 {
                Err(Error::new(ErrorKind::WrongType, "file descriptor must be positive"))
            } else {
                Ok(HostCall::Write { fd, buffer })
            }
        },
        None => Err(Error::new(ErrorKind::WrongType, "file descriptor must be an integer")),
    }
}

/// `stdread`: pops a count of bytes and, under it, a file descriptor, both
/// whole numbers that are not negative.
pub fn rasp_read(v: &mut VM) -> (r: Result<HostCall, Error>)
    ensures
        ({
            let s = stack_v(*old(v));
            if s.len() < 2 {
                r is Err
            } else {
                let count = whole(s[s.len() - 1]);
                let fd = whole(s[s.len() - 2]);
                if count is Some && count->0 >= 0 && fd is Some && fd->0 >= 0 {
                    r matches Ok(HostCall::Read { fd: x, count: y }) && x == fd->0 && y == count->0
                        && stack_v(*final(v)) == s.subrange(0, s.len() - 2)
                } else {
                    r matches Err(e) && e.kind == ErrorKind::WrongType
                }
            }
        }),
{
    if v.value_stack.len() < 2 {
        return Err(Error::new(ErrorKind::StackEmpty, "attempted to pop a value off of an empty value stack"));
    }
    let count_val = v.pop_value().unwrap();
    let fd_val = v.pop_value().unwrap();
    proof {
        assert(stack_v(*v) =~= stack_v(*old(v)).subrange(0, stack_v(*old(v)).len() - 2));
    }
    let count = match whole_of(&count_val) {
        Some(c) => c,
        None => {
            return Err(Error::new(ErrorKind::WrongType, "count must be an integer"));
        },
    };
    let fd = match whole_of(&fd_val) {
        Some(d) => d,
        None => {
            return Err(Error::new(ErrorKind::WrongType, "file descriptor must be an integer"));
        },
    };
    if fd < 0 {
        return Err(Error::new(ErrorKind::WrongType, "file descriptor must be positive"));
    }
    if count < 0 {
        return Err(Error::new(ErrorKind::WrongType, "count must be positive"));
    }
    Ok(HostCall::Read { fd, count: count as u64 })
}

/// The file intrinsic `name`'s request to the host.
pub(crate) fn host_request(v: &mut VM, name: &str) -> (r: Result<HostCall, Error>)
{
    let n = owned(name);
    if crate::text::is_word(&n, "stdopen") {
        rasp_open(v)
    } else if crate::text::is_word(&n, "stdclose") {
        rasp_close(v)
    } else if crate::text::is_word(&n, "stdwrite") {
        rasp_write(v)
    } else if crate::text::is_word(&n, "stdread") {
        rasp_read(v)
    } else {
        Err(Error::with_detail(ErrorKind::UnknownFunction, "unknown function ", name))
    }
}

} // verus!
