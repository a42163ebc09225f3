//! The errors that the passes report.

use vstd::prelude::*;
use crate::object::Object;
use crate::symbol::Symbol;

verus! {

/// What went wrong.
#[derive(Debug, PartialEq)]
pub enum ErrorKind {
    /// A numeric literal that no number type can hold.
    InvalidNumericConstant(String),
    /// A value that has no expression form.
    UnknownExpressionType(Object),
    /// A list was expected, and this value ends it instead of `()`.
    NotAPair(Object),
    /// A malformed binding form or top-level form.
    SyntaxError(Syntax),
}

/// The ways a form can be malformed.
#[derive(Debug, PartialEq)]
pub enum Syntax {
    /// A parameter of a `lambda` that is not a symbol.
    ParameterNotSymbol(Object),
    /// A defined name that is not a symbol.
    NameNotSymbol(Object),
    /// A parameter named twice in one parameter list.
    DuplicateParameter(Symbol),
    /// A top-level form that is not a definition.
    ExpectedDefinition,
}

/// An error of one pass over one unit of input.
#[derive(Debug, PartialEq)]
pub struct Error {
    pub kind: ErrorKind,
}

impl Error {
    pub fn new(kind: ErrorKind) -> (r: Error)
        ensures
            r.kind == kind,
    {
        Error { kind }
    }

    pub fn kind(&self) -> (r: &ErrorKind)
        ensures
            *r == self.kind,
    {
        &self.kind
    }
}

/// The error for a malformed form.
pub open spec fn syntax_error(k: Syntax) -> Error {
    Error { kind: ErrorKind::SyntaxError(k) }
}

/// The error for a list that ends in `o` instead of `()`.
pub open spec fn not_a_pair(o: Object) -> Error {
    Error { kind: ErrorKind::NotAPair(o) }
}

} // verus!
