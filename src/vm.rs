//! The stack machine: a value stack, a stack of variable scopes, and a
//! stack of frames of bytecode being run.

use vstd::prelude::*;
use crate::bytecode::{Bytecode, BytecodeV, ToBytecode, balanced, code_view};
use crate::error::{Error, ErrorKind};
use crate::internal::{FunTable, Function, TypeTable, fun_index};
use crate::text::owned;
use crate::num::Num;
use crate::value::{Value, ValueV, views};

verus! {

/// A scope: names bound to values; a later binding of a name replaces the
/// earlier one.
pub type VarTable = Vec<(String, Value)>;

/// Bytecode being run, and the index of the next instruction.
#[derive(Debug)]
pub struct Frame {
    pub code: Vec<Bytecode>,
    pub ip: usize,
    /// Whether the frame runs a user function's body.
    pub is_call: bool,
}

/// Represents a virtual machine that runs bytecode.
#[derive(Debug)]
pub struct VM {
    pub var_stack: Vec<VarTable>,
    pub value_stack: Vec<Value>,
    pub fun_table: FunTable,
    pub type_table: TypeTable,
    /// The compiled bytecode of the functions called so far.
    pub fun_bytecode: Vec<(String, Vec<Bytecode>)>,
    pub fun_stack: Vec<String>,
    pub frames: Vec<Frame>,
}

/// The contents of the value stack, bottom first.
pub open spec fn stack_v(vm: VM) -> Seq<ValueV> {
    views(vm.value_stack@)
}

/// Whether `b` is `a` with at most its value stack changed.
pub open spec fn only_stack_changed(a: VM, b: VM) -> bool {
    &&& a.var_stack == b.var_stack
    &&& a.fun_table == b.fun_table
    &&& a.type_table == b.type_table
    &&& a.fun_bytecode == b.fun_bytecode
    &&& a.fun_stack == b.fun_stack
    &&& a.frames == b.frames
}

/// What a stack operation gives: the new stack, or the kind of error.
pub type StackOutcome = Result<Seq<ValueV>, ErrorKind>;

/// Whether the result `r` and the machine `b` after an operation on `a`
/// match the expected outcome.
pub open spec fn outcome(a: VM, b: VM, r: Result<(), Error>, expect: StackOutcome) -> bool {
    match expect {
        Ok(s) => r is Ok && stack_v(b) == s && only_stack_changed(a, b),
        Err(k) => r matches Err(e) && e.kind == k,
    }
}

impl VM {
    pub fn new(fun_table: FunTable, type_table: TypeTable) -> (r: VM)
        ensures
            r.var_stack@.len() == 0,
            r.value_stack@.len() == 0,
            r.fun_table == fun_table,
            r.type_table == type_table,
            r.fun_bytecode@.len() == 0,
            r.fun_stack@.len() == 0,
            r.frames@.len() == 0,
    {
        VM {
            var_stack: Vec::new(),
            value_stack: Vec::new(),
            fun_table,
            type_table,
            fun_bytecode: Vec::new(),
            fun_stack: Vec::new(),
            frames: Vec::new(),
        }
    }

    /// The names of the functions being run, outermost first.
    pub fn fun_stack(&self) -> (r: &Vec<String>)
        ensures
            r == &self.fun_stack,
    {
        &self.fun_stack
    }

    pub fn fun_table(&self) -> (r: &FunTable)
        ensures
            r == &self.fun_table,
    {
        &self.fun_table
    }

    /// Pushes a value onto the value stack.
    pub fn push(&mut self, value: Value)
        ensures
            stack_v(*final(self)) == stack_v(*old(self)).push(value@),
            only_stack_changed(*old(self), *final(self)),
    {
        self.value_stack.push(value);
        assert(stack_v(*self) =~= stack_v(*old(self)).push(value@));
    }

    /// Pops the top value; an empty stack is an error.
    pub fn pop_value(&mut self) -> (r: Result<Value, Error>)
        ensures
            old(self).value_stack@.len() == 0 <==> r is Err,
            r matches Err(e) ==> e.kind == ErrorKind::StackEmpty && *final(self) == *old(self),
            r matches Ok(v) ==> v@ == stack_v(*old(self)).last()
                && stack_v(*final(self)) == stack_v(*old(self)).drop_last()
                && final(self).value_stack@.len() == old(self).value_stack@.len() - 1,
            only_stack_changed(*old(self), *final(self)),
    {
        if self.value_stack.len() == 0 {
            return Err(Error::new(ErrorKind::StackEmpty, "attempted to pop a value off of an empty value stack"));
        }
        let v = self.value_stack.pop().unwrap();
        assert(stack_v(*self) =~= stack_v(*old(self)).drop_last());
        Ok(v)
    }

    /// The top value, where there is one.
    pub fn peek_value(&self) -> (r: Option<&Value>)
        ensures
            self.value_stack@.len() == 0 <==> r is None,
            r matches Some(v) ==> v@ == stack_v(*self).last(),
    {
        if self.value_stack.len() == 0 {
            None
        } else {
            Some(&self.value_stack[self.value_stack.len() - 1])
        }
    }
}

/// The value `name` has in a scope: its latest binding there.
pub open spec fn scope_lookup(vars: Seq<(String, Value)>, name: Seq<char>) -> Option<ValueV>
    decreases vars.len(),
{
    if vars.len() == 0 {
        None
    } else if vars.last().0@ == name {
        Some(vars.last().1@)
    } else {
        scope_lookup(vars.drop_last(), name)
    }
}

/// The value `name` has, looked up from the innermost scope outwards.
pub open spec fn lookup(scopes: Seq<VarTable>, name: Seq<char>) -> Option<ValueV>
    decreases scopes.len(),
{
    if scopes.len() == 0 {
        None
    } else {
        match scope_lookup(scopes.last()@, name) {
            Some(v) => Some(v),
            None => lookup(scopes.drop_last(), name),
        }
    }
}

/// Which of read and write a file is opened for.
#[derive(PartialEq, Eq, Structural, Clone, Copy, Debug)]
pub enum Access {
    ReadOnly,
    WriteOnly,
    ReadWrite,
}

/// How a file is opened.
#[derive(PartialEq, Eq, Structural, Clone, Copy, Debug)]
pub struct OpenFlags {
    pub access: Access,
    pub create: bool,
    pub truncate: bool,
    pub append: bool,
}

/// The flags a mode string stands for.
pub open spec fn mode_flags_spec(m: Seq<char>) -> Option<OpenFlags> {
    if m == "r"@ || m == "rb"@ {
        Some(OpenFlags { access: Access::ReadOnly, create: false, truncate: false, append: false })
    } else if m == "w"@ || m == "wb"@ {
        Some(OpenFlags { access: Access::WriteOnly, create: true, truncate: true, append: false })
    } else if m == "a"@ || m == "ab"@ {
        Some(OpenFlags { access: Access::WriteOnly, create: true, truncate: false, append: true })
    } else if m == "r+"@ || m == "rb+"@ || m == "r+b"@ {
        Some(OpenFlags { access: Access::ReadWrite, create: false, truncate: false, append: true })
    } else if m == "w+"@ || m == "wb+"@ || m == "w+b"@ {
        Some(OpenFlags { access: Access::ReadWrite, create: true, truncate: true, append: false })
    } else if m == "a+"@ || m == "ab+"@ || m == "a+b"@ {
        Some(OpenFlags { access: Access::ReadWrite, create: true, truncate: false, append: true })
    } else {
        None
    }
}

/// The flags for a mode string: `r`, `w`, `a`, `r+`, `w+`, `a+`, each
/// with an optional `b`.
pub fn mode_flags(mode: &str) -> (r: Option<OpenFlags>)
    ensures
        r == mode_flags_spec(mode@),
{
    let m = owned(mode);
    if crate::text::is_word(&m, "r") || crate::text::is_word(&m, "rb") {
        Some(OpenFlags { access: Access::ReadOnly, create: false, truncate: false, append: false })
    } else if crate::text::is_word(&m, "w") || crate::text::is_word(&m, "wb") {
        Some(OpenFlags { access: Access::WriteOnly, create: true, truncate: true, append: false })
    } else if crate::text::is_word(&m, "a") || crate::text::is_word(&m, "ab") {
        Some(OpenFlags { access: Access::WriteOnly, create: true, truncate: false, append: true })
    } else if crate::text::is_word(&m, "r+") || crate::text::is_word(&m, "rb+") || crate::text::is_word(&m, "r+b") {
        Some(OpenFlags { access: Access::ReadWrite, create: false, truncate: false, append: true })
    } else if crate::text::is_word(&m, "w+") || crate::text::is_word(&m, "wb+") || crate::text::is_word(&m, "w+b") {
        Some(OpenFlags { access: Access::ReadWrite, create: true, truncate: true, append: false })
    } else if crate::text::is_word(&m, "a+") || crate::text::is_word(&m, "ab+") || crate::text::is_word(&m, "a+b") {
        Some(OpenFlags { access: Access::ReadWrite, create: true, truncate: false, append: true })
    } else {
        None
    }
}

/// Work on files that the machine hands to its host; the host pushes the
/// result and runs the machine on.
#[derive(Debug)]
pub enum HostCall {
    /// Open `path`; the result is the file descriptor, as a number.
    Open { path: String, flags: OpenFlags },
    /// Close `fd`; the result is what closing returned, as a number.
    Close { fd: i64 },
    /// Write `buffer` to `fd`; the result is what writing returned.
    Write { fd: i64, buffer: String },
    /// Read up to `count` bytes from `fd`; the result is [`read_result`].
    Read { fd: i64, count: u64 },
}

/// What one step of the machine came to.
#[derive(Debug)]
pub enum Step {
    /// An instruction ran, or a frame ended; there is more to run.
    Continue,
    /// No frame is left.
    Finished,
    /// A file intrinsic needs the host.
    Host(HostCall),
}

/// A number as a value.
pub fn host_number(n: i64) -> (r: Value)
    ensures
        r@ == ValueV::Number(Num { num: n, den: 1 }),
{
    Value::Number(Num::from_int(n))
}

/// The value a read gives: the count read, and the bytes, as numbers.
pub fn read_result(n: i64, bytes: &Vec<u8>) -> (r: Value)
    ensures
        r@ is List,
        r@->List_0.len() == 2,
        r@->List_0[0] == ValueV::Number(Num { num: n, den: 1 }),
        r@->List_0[1] is List,
        r@->List_0[1]->List_0.len() == bytes@.len(),
        forall|k: int| 0 <= k < bytes@.len() ==> #[trigger] r@->List_0[1]->List_0[k]
            == ValueV::Number(Num { num: bytes@[k] as i64, den: 1 }),
{
    let mut items: Vec<Value> = Vec::new();
    let mut i: usize = 0;
    while i < bytes.len()
        invariant
            i <= bytes@.len(),
            items@.len() == i,
            forall|k: int| 0 <= k < i ==> (#[trigger] items@[k])@ == ValueV::Number(Num { num: bytes@[k] as i64, den: 1 }),
        decreases bytes.len() - i,
    {
        items.push(Value::Number(Num::from_int(bytes[i] as i64)));
        i = i + 1;
    }
    proof {
        crate::value::lemma_list_view(items);
    }
    let pair = vec![host_number(n), Value::List(items)];
    proof {
        crate::value::lemma_list_view(pair);
    }
    Value::List(pair)
}

impl VM {
    /// The value `name` has, looked up from the innermost scope outwards.
    fn get_var(&self, name: &str) -> (r: Option<&Value>)
        ensures
            match lookup(self.var_stack@, name@) {
                Some(v) => r matches Some(x) && x@ == v,
                None => r is None,
            },
    {
        let n = owned(name);
        let mut i: usize = self.var_stack.len();
        assert(self.var_stack@.subrange(0, i as int) =~= self.var_stack@);
        while i > 0
            invariant
                i <= self.var_stack@.len(),
                n@ == name@,
                lookup(self.var_stack@, name@) == lookup(self.var_stack@.subrange(0, i as int), name@),
            decreases i,
        {
            let scope = &self.var_stack[i - 1];
            let mut j: usize = scope.len();
            assert(scope@.subrange(0, j as int) =~= scope@);
            while j > 0
                invariant
                    j <= scope@.len(),
                    scope_lookup(scope@, name@) == scope_lookup(scope@.subrange(0, j as int), name@),
                    n@ == name@,
                    0 < i <= self.var_stack@.len(),
                    *scope == self.var_stack@[i - 1],
                    lookup(self.var_stack@, name@) == lookup(self.var_stack@.subrange(0, i as int), name@),
                decreases j,
            {
                if scope[j - 1].0.eq(&n) {
                    proof {
                        assert(scope@.subrange(0, j as int).last() == scope@[j - 1]);
                        let pre = self.var_stack@.subrange(0, i as int);
                        assert(pre.last() == *scope);
                    }
                    return Some(&scope[j - 1].1);
                }
                proof {
                    assert(scope@.subrange(0, j as int).drop_last() =~= scope@.subrange(0, j - 1));
                }
                j = j - 1;
            }
            proof {
                let pre = self.var_stack@.subrange(0, i as int);
                assert(pre.last() == *scope);
                assert(scope@.subrange(0, 0) =~= Seq::<(String, Value)>::empty());
                assert(scope@.subrange(0, scope@.len() as int) =~= scope@);
                assert(pre.drop_last() =~= self.var_stack@.subrange(0, i - 1));
            }
            i = i - 1;
        }
        None
    }

    /// Binds `name` to `value` in the innermost scope.
    fn set_var(&mut self, name: &str, value: Value)
        requires
            old(self).var_stack@.len() > 0,
        ensures
            final(self).var_stack@.len() == old(self).var_stack@.len(),
            final(self).var_stack@.drop_last() == old(self).var_stack@.drop_last(),
            final(self).var_stack@.last()@ == old(self).var_stack@.last()@.push((final(self).var_stack@.last()@.last().0, value)),
            final(self).var_stack@.last()@.last().0@ == name@,
            lookup(final(self).var_stack@, name@) == Some(value@),
            stack_v(*final(self)) == stack_v(*old(self)),
            final(self).frames == old(self).frames,
            final(self).fun_table == old(self).fun_table,
            final(self).fun_bytecode == old(self).fun_bytecode,
            final(self).type_table == old(self).type_table,
            final(self).fun_stack == old(self).fun_stack,
            final(self).var_stack@.last()@.drop_last() == old(self).var_stack@.last()@,
            final(self).var_stack@.last()@.len() == old(self).var_stack@.last()@.len() + 1,
            final(self).var_stack@.last()@.last().1@ == value@,
    {
        let last = self.var_stack.len() - 1;
        let mut scope = self.var_stack.remove(last);
        scope.push((owned(name), value));
        self.var_stack.push(scope);
        proof {
            assert(self.var_stack@.drop_last() =~= old(self).var_stack@.drop_last());
            assert(scope_lookup(self.var_stack@.last()@, name@) == Some(value@));
            assert(self.var_stack@.last()@.drop_last() =~= old(self).var_stack@.last()@);
        }
    }
}

/// A copy of a run of bytecode.
pub fn copy_code(c: &Vec<Bytecode>) -> (r: Vec<Bytecode>)
    ensures
        code_view(r@) == code_view(c@),
{
    let mut out: Vec<Bytecode> = Vec::new();
    let mut i: usize = 0;
    while i < c.len()
        invariant
            i <= c@.len(),
            out@.len() == i,
            forall|k: int| 0 <= k < i ==> (#[trigger] out@[k])@ == c@[k]@,
        decreases c.len() - i,
    {
        out.push(c[i].clone());
        i = i + 1;
    }
    assert(code_view(out@) =~= code_view(c@));
    out
}

/// Whether bytecode compiled for `name` is cached.
pub open spec fn is_cached(vm: VM, name: Seq<char>) -> bool {
    exists|i: int| 0 <= i < vm.fun_bytecode@.len() && (#[trigger] vm.fun_bytecode@[i]).0@ == name
}

/// What the intrinsic `name` does to the value stack `s`; `None` for the
/// file intrinsics, which go to the host, and for other names.
pub open spec fn intrinsic_result(name: Seq<char>, s: Seq<ValueV>) -> Option<StackOutcome> {
    if name == "+"@ {
        Some(crate::builtins::num_result(s, crate::builtins::NumOp::Add))
    } else if name == "-"@ {
        Some(crate::builtins::num_result(s, crate::builtins::NumOp::Sub))
    } else if name == "*"@ {
        Some(crate::builtins::num_result(s, crate::builtins::NumOp::Mul))
    } else if name == "/"@ {
        Some(crate::builtins::num_result(s, crate::builtins::NumOp::Div))
    } else if name == "="@ {
        Some(crate::builtins::equals_result(s))
    } else if name == "car"@ {
        Some(crate::builtins::car_result(s))
    } else if name == "cdr"@ {
        Some(crate::builtins::cdr_result(s))
    } else if name == "nil?"@ {
        Some(crate::builtins::nil_result(s))
    } else if name == "list"@ {
        Some(crate::builtins::list_result(s))
    } else if name == "append"@ {
        Some(crate::builtins::append_result(s))
    } else if name == "string"@ {
        Some(crate::builtins::string_result(s))
    } else {
        None
    }
}

/// The frame being run.
pub open spec fn top_frame(vm: VM) -> Frame {
    vm.frames@.last()
}

/// The instruction about to run.
pub open spec fn current(vm: VM) -> BytecodeV {
    top_frame(vm).code@[top_frame(vm).ip as int]@
}

/// Whether the top frame has an instruction left to run.
pub open spec fn has_current(vm: VM) -> bool {
    vm.frames@.len() > 0 && top_frame(vm).ip < top_frame(vm).code@.len()
}

impl VM {
    /// Whether `name` is a function defined in the table or compiled.
    fn has_function(&self, name: &str) -> (r: bool)
        ensures
            r == (fun_index(self.fun_table.funs@, name@) is Some || is_cached(*self, name@)),
    {
        self.fun_table.has_fun(name) || self.cached(name).is_some()
    }

    /// The index of the cached bytecode of `name`.
    fn cached(&self, name: &str) -> (r: Option<usize>)
        ensures
            r matches Some(i) ==> i < self.fun_bytecode@.len() && self.fun_bytecode@[i as int].0@ == name@,
            r is None ==> !is_cached(*self, name@),
    {
        let n = owned(name);
        let mut i: usize = 0;
        while i < self.fun_bytecode.len()
            invariant
                i <= self.fun_bytecode@.len(),
                n@ == name@,
                forall|k: int| 0 <= k < i ==> (#[trigger] self.fun_bytecode@[k]).0@ != name@,
            decreases self.fun_bytecode.len() - i,
        {
            if self.fun_bytecode[i].0.eq(&n) {
                return Some(i);
            }
            i = i + 1;
        }
        None
    }

    /// The bytecode of a function: a pop into each parameter, in the order
    /// they are declared, then its body. The caller pushed the arguments
    /// left to right, so the first pop takes the last argument.
    pub fn compile_function(&self, fun: &Function) -> (r: Result<Vec<Bytecode>, Error>)
        ensures
            r matches Ok(c) ==> c@.len() >= fun.params@.len()
                && (forall|k: int| 0 <= k < fun.params@.len() ==> (#[trigger] c@[k])@ == BytecodeV::Pop(fun.params@[k].name@))
                && balanced(code_view(c@).subrange(fun.params@.len() as int, c@.len() as int)),
            match crate::bytecode::lower_seq(crate::ast::ast_views(fun.body@), 0, fun.body@.len() as int, self.fun_table) {
                Some(body) => r matches Ok(c) && code_view(c@).subrange(fun.params@.len() as int, c@.len() as int) == body,
                None => r is Err,
            },
    {
        let mut prelude: Vec<Bytecode> = Vec::new();
        let mut k: usize = 0;
        while k < fun.params.len()
            invariant
                k <= fun.params@.len(),
                prelude@.len() == k,
                forall|x: int| 0 <= x < k ==> (#[trigger] prelude@[x])@ == BytecodeV::Pop(fun.params@[x].name@),
            decreases fun.params.len() - k,
        {
            prelude.push(Bytecode::Pop(fun.params[k].name.clone()));
            k = k + 1;
        }
        let generator = ToBytecode::new(&self.fun_table, &self.type_table);
        let mut body = match generator.to_bytecode(&fun.body) {
            Ok(b) => b,
            Err(e) => {
                let mut m = owned("failure to compile function `");
                crate::text::push_str(&mut m, fun.name.as_str());
                crate::text::push_str(&mut m, "'");
                return Err(e.chain(m));
            },
        };
        let ghost pv = prelude@;
        let ghost bv = body@;
        prelude.append(&mut body);
        proof {
            assert(code_view(prelude@).subrange(pv.len() as int, prelude@.len() as int) =~= code_view(bv));
            assert forall|x: int| 0 <= x < fun.params@.len() implies (#[trigger] prelude@[x])@ == BytecodeV::Pop(fun.params@[x].name@) by {
                assert(prelude@[x] == pv[x]);
            }
        }
        Ok(prelude)
    }

    /// The bytecode of the function `name`, compiled on its first call.
    fn function_code(&mut self, name: &String) -> (r: Result<Vec<Bytecode>, Error>)
        ensures
            r is Err ==> !is_cached(*old(self), name@) && (fun_index(old(self).fun_table.funs@, name@) is None
                || (fun_index(old(self).fun_table.funs@, name@) matches Some(i)
                && crate::bytecode::lower_seq(crate::ast::ast_views(old(self).fun_table.funs@[i].body@), 0,
                    old(self).fun_table.funs@[i].body@.len() as int, old(self).fun_table) is None)),
            r is Ok && !is_cached(*old(self), name@) ==> (fun_index(old(self).fun_table.funs@, name@) matches Some(i)
                && crate::bytecode::lower_seq(crate::ast::ast_views(old(self).fun_table.funs@[i].body@), 0,
                    old(self).fun_table.funs@[i].body@.len() as int, old(self).fun_table) matches Some(body)
                && function_code_ok(old(self).fun_table.funs@[i], r->Ok_0@, body)),
            final(self).type_table == old(self).type_table,
            final(self).fun_table == old(self).fun_table,
            final(self).frames == old(self).frames,
            final(self).var_stack == old(self).var_stack,
            stack_v(*final(self)) == stack_v(*old(self)),
            final(self).fun_stack == old(self).fun_stack,
    {
        match self.cached(name.as_str()) {
            Some(i) => {
                return Ok(copy_code(&self.fun_bytecode[i].1));
            },
            None => {},
        }
        let code = match self.fun_table.get_fun(name.as_str()) {
            Some(fun) => self.compile_function(fun)?,
            None => {
                return Err(Error::with_detail(ErrorKind::UnknownFunction, "unknown function ", name.as_str()));
            },
        };
        let keep = copy_code(&code);
        self.fun_bytecode.push((name.clone(), keep));
        Ok(code)
    }

    /// Starts running `bytecode`: a new frame with a scope of its own.
    pub fn start(&mut self, bytecode: &Vec<Bytecode>)
        ensures
            final(self).frames@.len() == old(self).frames@.len() + 1,
            final(self).frames@.drop_last() == old(self).frames@,
            code_view(top_frame(*final(self)).code@) == code_view(bytecode@),
            top_frame(*final(self)).ip == 0,
            !top_frame(*final(self)).is_call,
            final(self).var_stack@.len() == old(self).var_stack@.len() + 1,
            stack_v(*final(self)) == stack_v(*old(self)),
            started(*old(self), bytecode@, *final(self)),
    {
        self.var_stack.push(Vec::new());
        self.frames.push(Frame { code: copy_code(bytecode), ip: 0, is_call: false });
        assert(self.frames@.drop_last() =~= old(self).frames@);
        assert(self.var_stack@.drop_last() =~= old(self).var_stack@);
    }

    /// Runs one instruction of the top frame, or ends the frame when its
    /// code is done. A call of a user function starts a frame for its
    /// bytecode; a file intrinsic is handed to the host.
    pub fn step(&mut self) -> (r: Result<Step, Error>)
        ensures
            step_rel(*old(self), r, *final(self)),
    {
        if self.frames.len() == 0 {
            return Ok(Step::Finished);
        }
        let last = self.frames.len() - 1;
        let mut frame = self.frames.remove(last);
        assert(self.frames@ == old(self).frames@.drop_last());
        if frame.ip >= frame.code.len() {
            if self.var_stack.len() > 0 {
                self.var_stack.pop();
            }
            if frame.is_call && self.fun_stack.len() > 0 {
                self.fun_stack.pop();
            }
            return Ok(Step::Continue);
        }
        let instr = frame.code[frame.ip].clone();
        let len = frame.code.len();
        frame.ip = frame.ip + 1;
        match instr {
            Bytecode::Skip(n) => {
                frame.ip = if n > len - frame.ip { len } else { frame.ip + n };
                self.frames.push(frame);
                assert(self.frames@.drop_last() =~= old(self).frames@.drop_last());
                Ok(Step::Continue)
            },
            Bytecode::SkipFalse(n) => {
                let value = self.pop_value()?;
                let skip = match &value {
                    Value::Number(x) => x.num == 0,
                    Value::String(s) => crate::text::chars_of(s.as_str()).len() == 0,
                    Value::List(l) => {
                        proof {
                            crate::value::lemma_list_view(*l);
                        }
                        l.len() == 0
                    },
                    Value::Boolean(b) => !*b,
                    _ => {
                        return Err(Error::with_detail(
                            ErrorKind::WrongType,
                            "VM error: invalid boolean value reached (got ",
                            value.type_str(),
                        ));
                    },
                };
                if skip {
                    frame.ip = if n > len - frame.ip { len } else { frame.ip + n };
                }
                self.frames.push(frame);
                assert(self.frames@.drop_last() =~= old(self).frames@.drop_last());
                Ok(Step::Continue)
            },
            Bytecode::Push(value) => {
                self.frames.push(frame);
                assert(self.frames@.drop_last() =~= old(self).frames@.drop_last());
                match &value {
                    Value::Identifier(name) => {
                        let found = match self.get_var(name.as_str()) {
                            Some(v) => v.clone(),
                            None => {
                                return Err(Error::with_detail(ErrorKind::UnknownVariable, "unknown identifier ", name.as_str()));
                            },
                        };
                        self.push(found);
                    },
                    _ => {
                        self.push(value);
                    },
                }
                Ok(Step::Continue)
            },
            Bytecode::Load(name) => {
                self.frames.push(frame);
                assert(self.frames@.drop_last() =~= old(self).frames@.drop_last());
                let found = match self.get_var(name.as_str()) {
                    Some(v) => v.clone(),
                    None => {
                        return Err(Error::with_detail(ErrorKind::UnknownVariable, "unknown variable or function name: ", name.as_str()));
                    },
                };
                self.push(found);
                Ok(Step::Continue)
            },
            Bytecode::Pop(name) => {
                self.frames.push(frame);
                assert(self.frames@.drop_last() =~= old(self).frames@.drop_last());
                let value = self.pop_value()?;
                if self.var_stack.len() == 0 {
                    return Err(Error::new(ErrorKind::StackEmpty, "no scope to bind a variable in"));
                }
                self.set_var(name.as_str(), value);
                Ok(Step::Continue)
            },
            Bytecode::Store(name, value) => {
                self.frames.push(frame);
                assert(self.frames@.drop_last() =~= old(self).frames@.drop_last());
                if self.var_stack.len() == 0 {
                    return Err(Error::new(ErrorKind::StackEmpty, "no scope to bind a variable in"));
                }
                self.set_var(name.as_str(), value);
                Ok(Step::Continue)
            },
            Bytecode::NewVarStack => {
                self.frames.push(frame);
                assert(self.frames@.drop_last() =~= old(self).frames@.drop_last());
                self.var_stack.push(Vec::new());
                assert(self.var_stack@.drop_last() =~= old(self).var_stack@);
                Ok(Step::Continue)
            },
            Bytecode::PopVarStack => {
                self.frames.push(frame);
                assert(self.frames@.drop_last() =~= old(self).frames@.drop_last());
                if self.var_stack.len() == 0 {
                    return Err(Error::new(ErrorKind::StackEmpty, "tried to pop a scope but there was none"));
                }
                self.var_stack.pop();
                Ok(Step::Continue)
            },
            Bytecode::Call(name, _) => {
                self.frames.push(frame);
                assert(self.frames@.drop_last() =~= old(self).frames@.drop_last());
                let ghost mid = *self;
                let r = self.call(&name);
                proof {
                    if r is Ok && (fun_index(mid.fun_table.funs@, name@) is Some || is_cached(mid, name@)) {
                        assert(self.frames@[old(self).frames@.len() - 1] == mid.frames@.last());
                        assert(self.frames@.subrange(0, old(self).frames@.len() - 1) =~= old(self).frames@.drop_last());
                    }
                }
                r
            },
        }
    }

    /// Calls `name`: a user function starts a frame; an intrinsic runs, or
    /// is handed to the host where it works on files.
    fn call(&mut self, name: &String) -> (r: Result<Step, Error>)
        ensures
            !(r matches Ok(Step::Finished)),
            (fun_index(old(self).fun_table.funs@, name@) is Some || is_cached(*old(self), name@)) ==> {
                &&& r is Ok ==> {
                    &&& r matches Ok(Step::Continue)
                    &&& final(self).frames@.drop_last() == old(self).frames@
                    &&& final(self).frames@.len() == old(self).frames@.len() + 1
                    &&& top_frame(*final(self)).is_call && top_frame(*final(self)).ip == 0
                    &&& final(self).var_stack@.drop_last() == old(self).var_stack@
                    &&& final(self).var_stack@.last()@.len() == 0
                    &&& final(self).fun_stack@ == old(self).fun_stack@.push(*name)
                    &&& stack_v(*final(self)) == stack_v(*old(self))
                    &&& final(self).fun_table == old(self).fun_table
                    &&& final(self).type_table == old(self).type_table
                    &&& !is_cached(*old(self), name@) ==> (fun_index(old(self).fun_table.funs@, name@) matches Some(i)
                        && crate::bytecode::lower_seq(crate::ast::ast_views(old(self).fun_table.funs@[i].body@), 0,
                            old(self).fun_table.funs@[i].body@.len() as int, old(self).fun_table) matches Some(body)
                        && function_code_ok(old(self).fun_table.funs@[i], top_frame(*final(self)).code@, body))
                }
                &&& r is Err ==> !is_cached(*old(self), name@) && (fun_index(old(self).fun_table.funs@, name@) matches Some(i)
                    && crate::bytecode::lower_seq(crate::ast::ast_views(old(self).fun_table.funs@[i].body@), 0,
                        old(self).fun_table.funs@[i].body@.len() as int, old(self).fun_table) is None)
            },
            fun_index(old(self).fun_table.funs@, name@) is None && !is_cached(*old(self), name@) ==> {
                &&& !crate::bytecode::is_intrinsic_name(name@) ==> (r matches Err(e) && e.kind == ErrorKind::UnknownFunction)
                &&& match intrinsic_result(name@, stack_v(*old(self))) {
                    Some(Ok(s2)) => (r matches Ok(Step::Continue)) && stack_v(*final(self)) == s2
                        && only_stack_changed(*old(self), *final(self)),
                    Some(Err(k)) => r matches Err(e) && e.kind == k,
                    None => r is Err || (r matches Ok(Step::Host(_))),
                }
            },
    {
        if self.has_function(name.as_str()) {
            let code = match self.function_code(name) {
                Ok(c) => c,
                Err(e) => {
                    return Err(e.chain(owned("failure to compile function")));
                },
            };
            self.fun_stack.push(name.clone());
            self.var_stack.push(Vec::new());
            self.frames.push(Frame { code, ip: 0, is_call: true });
            assert(self.var_stack@.drop_last() =~= old(self).var_stack@);
            assert(self.frames@.drop_last() =~= old(self).frames@);
            return Ok(Step::Continue);
        }
        let n = name.as_str();
        proof {
            reveal_strlit("+");
            reveal_strlit("-");
            reveal_strlit("*");
            reveal_strlit("/");
            reveal_strlit("=");
            reveal_strlit("car");
            reveal_strlit("cdr");
            reveal_strlit("nil?");
            reveal_strlit("list");
            reveal_strlit("append");
            reveal_strlit("string");
            reveal_strlit("stdopen");
            reveal_strlit("stdclose");
            reveal_strlit("stdwrite");
            reveal_strlit("stdread");
        }
        if crate::text::is_word(name, "+") {
            crate::builtins::plus(self)?;
        } else if crate::text::is_word(name, "-") {
            crate::builtins::minus(self)?;
        } else if crate::text::is_word(name, "*") {
            crate::builtins::times(self)?;
        } else if crate::text::is_word(name, "/") {
            crate::builtins::divide(self)?;
        } else if crate::text::is_word(name, "=") {
            crate::builtins::equals(self)?;
        } else if crate::text::is_word(name, "car") {
            crate::builtins::car(self)?;
        } else if crate::text::is_word(name, "cdr") {
            crate::builtins::cdr(self)?;
        } else if crate::text::is_word(name, "nil?") {
            crate::builtins::is_nil(self)?;
        } else if crate::text::is_word(name, "list") {
            crate::builtins::list(self)?;
        } else if crate::text::is_word(name, "append") {
            crate::builtins::append(self)?;
        } else if crate::text::is_word(name, "string") {
            crate::builtins::string(self)?;
        } else if crate::text::is_word(name, "stdopen") || crate::text::is_word(name, "stdclose")
            || crate::text::is_word(name, "stdwrite") || crate::text::is_word(name, "stdread") {
            let h = crate::builtins::host_request(self, n)?;
            return Ok(Step::Host(h));
        } else {
            return Err(Error::with_detail(ErrorKind::UnknownFunction, "unknown function ", n));
        }
        Ok(Step::Continue)
    }

    /// Runs `bytecode` in a new frame for at most `fuel` steps. The result
    /// says whether the machine finished, stopped for the host, or ran out
    /// of steps (`Continue`); [`VM::resume`] goes on from there.
    pub fn run(&mut self, bytecode: &Vec<Bytecode>, fuel: u64) -> (r: Result<Step, Error>)
        ensures
            r matches Ok(Step::Finished) ==> final(self).frames@.len() == 0,
            exists|s0: VM| started(*old(self), bytecode@, s0) && #[trigger] runs(s0, fuel as nat, r, *final(self)),
    {
        self.start(bytecode);
        let ghost s0 = *self;
        let r = self.resume(fuel);
        assert(started(*old(self), bytecode@, s0) && runs(s0, fuel as nat, r, *self));
        r
    }

    /// Runs at most `fuel` steps.
    pub fn resume(&mut self, fuel: u64) -> (r: Result<Step, Error>)
        ensures
            runs(*old(self), fuel as nat, r, *final(self)),
            r matches Ok(Step::Finished) ==> final(self).frames@.len() == 0,
            fuel == 0 ==> (r matches Ok(Step::Continue)) && *final(self) == *old(self),
            fuel > 0 && old(self).frames@.len() == 0 ==> (r matches Ok(Step::Finished)) && *final(self) == *old(self),
    {
        let mut left = fuel;
        if fuel > 0 && self.frames.len() == 0 {
            let ghost before = *self;
            let res = self.step();
            assert(step_rel(before, res, *self));
            assert(runs(before, fuel as nat, res, *self));
            return res;
        }
        while left > 0
            invariant
                left <= fuel,
                left == fuel ==> *self == *old(self),
                fuel > 0 ==> old(self).frames@.len() > 0,
                forall|rr: Result<Step, Error>, ff: VM| #[trigger] runs(*self, left as nat, rr, ff)
                    ==> runs(*old(self), fuel as nat, rr, ff),
            decreases left,
        {
            let ghost before = *self;
            let res = self.step();
            let go_on = match &res {
                Ok(Step::Continue) => true,
                _ => false,
            };
            if !go_on {
                assert(step_rel(before, res, *self));
                assert(runs(before, left as nat, res, *self));
                proof {
                    if res matches Ok(Step::Finished) {
                        assert(before.frames@.len() == 0);
                    }
                }
                return res;
            }
            assert(res matches Ok(Step::Continue));
            proof {
                let l1 = (left - 1) as nat;
                assert(l1 == (left as nat - 1) as nat);
                assert forall|rr: Result<Step, Error>, ff: VM| #[trigger] runs(*self, l1, rr, ff)
                    implies runs(*old(self), fuel as nat, rr, ff) by {
                    assert(step_rel(before, res, *self) && runs(*self, l1, rr, ff));
                    assert(runs(before, left as nat, rr, ff));
                }
            }
            left = left - 1;
        }
        assert(runs(*self, 0, Ok(Step::Continue), *self));
        Ok(Step::Continue)
    }
}

/// Whether `b` runs the same frames as `a`, the top one at instruction
/// `ip`, with the same tables and function stack.
pub open spec fn moved_to(a: VM, b: VM, ip: int) -> bool {
    &&& b.frames@.len() == a.frames@.len()
    &&& b.frames@.drop_last() == a.frames@.drop_last()
    &&& top_frame(b).code == top_frame(a).code
    &&& top_frame(b).is_call == top_frame(a).is_call
    &&& top_frame(b).ip == ip
    &&& keeps_tables(a, b)
}

/// Whether `b` has the tables, the compiled code and the function stack
/// of `a`.
pub open spec fn keeps_tables(a: VM, b: VM) -> bool {
    &&& b.fun_table == a.fun_table
    &&& b.type_table == a.type_table
    &&& b.fun_bytecode == a.fun_bytecode
    &&& b.fun_stack == a.fun_stack
}

/// Whether `b`'s innermost scope is `a`'s with `n` bound to `v` last.
pub open spec fn bound_in(a: VM, b: VM, n: Seq<char>, v: ValueV) -> bool {
    &&& a.var_stack@.len() > 0
    &&& b.var_stack@.len() == a.var_stack@.len()
    &&& b.var_stack@.drop_last() == a.var_stack@.drop_last()
    &&& b.var_stack@.last()@.drop_last() == a.var_stack@.last()@
    &&& b.var_stack@.last()@.len() == a.var_stack@.last()@.len() + 1
    &&& b.var_stack@.last()@.last().0@ == n
    &&& b.var_stack@.last()@.last().1@ == v
}

/// The pops into the parameters that start a function's bytecode, then
/// its body.
pub open spec fn function_code_ok(f: Function, c: Seq<Bytecode>, body: Seq<BytecodeV>) -> bool {
    &&& c.len() >= f.params@.len()
    &&& forall|k: int| 0 <= k < f.params@.len() ==> (#[trigger] c[k])@ == BytecodeV::Pop(f.params@[k].name@)
    &&& code_view(c).subrange(f.params@.len() as int, c.len() as int) == body
}

/// What one step of the machine does, from `a` to `b` with result `r`.
pub open spec fn step_rel(a: VM, r: Result<Step, Error>, b: VM) -> bool {
    if a.frames@.len() == 0 {
        (r matches Ok(Step::Finished)) && b == a
    } else if !has_current(a) {
        &&& r matches Ok(Step::Continue)
        &&& b.frames@ == a.frames@.drop_last()
        &&& stack_v(b) == stack_v(a)
        &&& b.var_stack@ == (if a.var_stack@.len() > 0 { a.var_stack@.drop_last() } else { a.var_stack@ })
        &&& b.fun_stack@ == (if top_frame(a).is_call && a.fun_stack@.len() > 0 {
            a.fun_stack@.drop_last()
        } else {
            a.fun_stack@
        })
        &&& b.fun_table == a.fun_table && b.fun_bytecode == a.fun_bytecode && b.type_table == a.type_table
    } else {
        let ip1 = top_frame(a).ip + 1;
        match current(a) {
            BytecodeV::Push(v) => {
                let x = if v is Ident { lookup(a.var_stack@, v->Ident_0) } else { Some(v) };
                match x {
                    Some(y) => (r matches Ok(Step::Continue)) && stack_v(b) == stack_v(a).push(y)
                        && moved_to(a, b, ip1) && b.var_stack == a.var_stack,
                    None => r matches Err(e) && e.kind == ErrorKind::UnknownVariable,
                }
            },
            BytecodeV::Load(n) => match lookup(a.var_stack@, n) {
                Some(y) => (r matches Ok(Step::Continue)) && stack_v(b) == stack_v(a).push(y)
                    && moved_to(a, b, ip1) && b.var_stack == a.var_stack,
                None => r matches Err(e) && e.kind == ErrorKind::UnknownVariable,
            },
            BytecodeV::Pop(n) => if a.value_stack@.len() == 0 || a.var_stack@.len() == 0 {
                r matches Err(e) && e.kind == ErrorKind::StackEmpty
            } else {
                (r matches Ok(Step::Continue)) && stack_v(b) == stack_v(a).drop_last()
                    && moved_to(a, b, ip1) && bound_in(a, b, n, stack_v(a).last())
            },
            BytecodeV::Store(n, v) => if a.var_stack@.len() == 0 {
                r matches Err(e) && e.kind == ErrorKind::StackEmpty
            } else {
                (r matches Ok(Step::Continue)) && stack_v(b) == stack_v(a)
                    && moved_to(a, b, ip1) && bound_in(a, b, n, v)
            },
            BytecodeV::NewVarStack => (r matches Ok(Step::Continue)) && stack_v(b) == stack_v(a)
                && moved_to(a, b, ip1) && b.var_stack@.drop_last() == a.var_stack@
                && b.var_stack@.len() == a.var_stack@.len() + 1 && b.var_stack@.last()@.len() == 0,
            BytecodeV::PopVarStack => if a.var_stack@.len() == 0 {
                r matches Err(e) && e.kind == ErrorKind::StackEmpty
            } else {
                (r matches Ok(Step::Continue)) && stack_v(b) == stack_v(a)
                    && moved_to(a, b, ip1) && b.var_stack@ == a.var_stack@.drop_last()
            },
            BytecodeV::Skip(n) => (r matches Ok(Step::Continue)) && stack_v(b) == stack_v(a)
                && moved_to(a, b, jump_target(a, n as int)) && b.var_stack == a.var_stack,
            BytecodeV::SkipFalse(n) => if a.value_stack@.len() == 0 {
                r matches Err(e) && e.kind == ErrorKind::StackEmpty
            } else {
                match crate::value::falsy(stack_v(a).last()) {
                    Some(f) => (r matches Ok(Step::Continue)) && stack_v(b) == stack_v(a).drop_last()
                        && b.var_stack == a.var_stack
                        && moved_to(a, b, if f { jump_target(a, n as int) } else { ip1 }),
                    None => r matches Err(e) && e.kind == ErrorKind::WrongType,
                }
            },
            BytecodeV::Call(n, _) => if fun_index(a.fun_table.funs@, n) is Some || is_cached(a, n) {
                &&& r is Ok ==> {
                    &&& r matches Ok(Step::Continue)
                    &&& b.frames@.len() == a.frames@.len() + 1
                    &&& b.frames@[a.frames@.len() - 1].code == top_frame(a).code
                    &&& b.frames@[a.frames@.len() - 1].is_call == top_frame(a).is_call
                    &&& b.frames@[a.frames@.len() - 1].ip == ip1
                    &&& b.frames@.subrange(0, a.frames@.len() - 1) == a.frames@.drop_last()
                    &&& top_frame(b).is_call && top_frame(b).ip == 0
                    &&& b.var_stack@.drop_last() == a.var_stack@ && b.var_stack@.last()@.len() == 0
                    &&& b.fun_stack@ == a.fun_stack@.push(b.fun_stack@.last()) && b.fun_stack@.last()@ == n
                    &&& stack_v(b) == stack_v(a)
                    &&& b.fun_table == a.fun_table
                    &&& !is_cached(a, n) ==> (fun_index(a.fun_table.funs@, n) matches Some(i)
                        && crate::bytecode::lower_seq(crate::ast::ast_views(a.fun_table.funs@[i].body@), 0,
                            a.fun_table.funs@[i].body@.len() as int, a.fun_table) matches Some(body)
                        && function_code_ok(a.fun_table.funs@[i], top_frame(b).code@, body))
                }
                &&& r is Err ==> !is_cached(a, n) && (fun_index(a.fun_table.funs@, n) matches Some(i)
                    && crate::bytecode::lower_seq(crate::ast::ast_views(a.fun_table.funs@[i].body@), 0,
                        a.fun_table.funs@[i].body@.len() as int, a.fun_table) is None)
            } else if !crate::bytecode::is_intrinsic_name(n) {
                r matches Err(e) && e.kind == ErrorKind::UnknownFunction
            } else {
                match intrinsic_result(n, stack_v(a)) {
                    Some(Ok(s2)) => (r matches Ok(Step::Continue)) && stack_v(b) == s2
                        && moved_to(a, b, ip1) && b.var_stack == a.var_stack,
                    Some(Err(k)) => r matches Err(e) && e.kind == k,
                    None => r is Err || (r matches Ok(Step::Host(_))),
                }
            },
        }
    }
}

/// Whether `b` is `a` with `code` started: a new frame at its first
/// instruction and a new, empty scope.
pub open spec fn started(a: VM, code: Seq<Bytecode>, b: VM) -> bool {
    &&& b.frames@.len() == a.frames@.len() + 1
    &&& b.frames@.drop_last() == a.frames@
    &&& code_view(top_frame(b).code@) == code_view(code)
    &&& top_frame(b).ip == 0
    &&& !top_frame(b).is_call
    &&& b.var_stack@.drop_last() == a.var_stack@
    &&& b.var_stack@.last()@.len() == 0
    &&& stack_v(b) == stack_v(a)
    &&& keeps_tables(a, b)
}

/// Whether running `a` for at most `fuel` steps can end in `b` with
/// result `r`: each step as [`step_rel`] says, stopping at an error, at
/// the end, or at a call for the host.
pub open spec fn runs(a: VM, fuel: nat, r: Result<Step, Error>, b: VM) -> bool
    decreases fuel,
{
    if fuel == 0 {
        (r matches Ok(Step::Continue)) && b == a
    } else {
        exists|r1: Result<Step, Error>, m: VM| #[trigger] step_rel(a, r1, m) && match r1 {
            Ok(Step::Continue) => runs(m, (fuel - 1) as nat, r, b),
            _ => r == r1 && b == m,
        }
    }
}

/// Where a jump of `n` from the current instruction lands: the `n`
/// instructions after it are skipped, and a jump past the end ends at it.
pub open spec fn jump_target(vm: VM, n: int) -> int {
    let f = top_frame(vm);
    if n > f.code@.len() - (f.ip + 1) {
        f.code@.len() as int
    } else {
        f.ip + 1 + n
    }
}

} // verus!
