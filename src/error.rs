//! The library's error: a kind, a message, and the context that each layer
//! added on the way out, innermost first.

use vstd::prelude::*;
use crate::text::{owned, push_str};

verus! {

/// What went wrong, by category.
#[derive(PartialEq, Eq, Structural, Clone, Copy, Debug)]
pub enum ErrorKind {
    /// A malformed token or an unexpected token in the parser.
    Syntax,
    /// A malformed directive or parameter list.
    Directive,
    /// A type alias that cannot be resolved or conflicts with another.
    TypeAlias,
    /// A call of something that is not a function, or a malformed form.
    Compile,
    /// A call with a number of arguments that the function does not take.
    Arity,
    /// A call of a function that is neither defined nor an intrinsic.
    UnknownFunction,
    /// A name that no scope holds.
    UnknownVariable,
    /// A pop from an empty value stack.
    StackEmpty,
    /// An intrinsic given a value of the wrong kind.
    WrongType,
    /// A number that leaves the representable range, or a division by zero.
    Arithmetic,
}

#[derive(Debug)]
pub struct Error {
    pub kind: ErrorKind,
    pub message: String,
    /// Context added by the enclosing layers, innermost first.
    pub context: Vec<String>,
}

impl Error {
    pub fn new(kind: ErrorKind, message: &str) -> (r: Error)
        ensures
            r.kind == kind,
            r.message@ == message@,
            r.context@.len() == 0,
    {
        Error { kind, message: owned(message), context: Vec::new() }
    }

    /// An error with the message `message`.
    pub fn of(kind: ErrorKind, message: String) -> (r: Error)
        ensures
            r.kind == kind,
            r.message == message,
            r.context@.len() == 0,
    {
        Error { kind, message, context: Vec::new() }
    }

    /// An error whose message is `message` followed by `detail`.
    pub fn with_detail(kind: ErrorKind, message: &str, detail: &str) -> (r: Error)
        ensures
            r.kind == kind,
            r.message@ == message@ + detail@,
            r.context@.len() == 0,
    {
        let mut m = owned(message);
        push_str(&mut m, detail);
        Error { kind, message: m, context: Vec::new() }
    }

    /// The same error with one more layer of context.
    pub fn chain(self, context: String) -> (r: Error)
        ensures
            r.kind == self.kind,
            r.message@ == self.message@,
            r.context@ == self.context@.push(context),
    {
        let mut e = self;
        e.context.push(context);
        e
    }
}

} // verus!
