//! Error types for the strict parser.

use vstd::prelude::*;

verus! {

/// An error that occurred while parsing the CNI syntax.
#[derive(Clone, Debug, PartialEq, Eq, Structural)]
pub struct Error {
    /// Line number on which the error occurred, counting from 1.
    pub line: usize,
    /// Column on which the error "started", counting from 1.
    pub col: usize,
    /// The type of error that occurred.
    pub kind: Kind,
}

/// A type of error that may occur.
#[derive(Clone, Copy, Debug, PartialEq, Eq, Structural)]
pub enum Kind {
    /// Syntax error: The end of a section header was expected (a closing bracket)
    ExpectedSectionEnd,
    /// Syntax error: A key (may be a section heading) was malformed.
    InvalidKey,
    /// Syntax error: A key was expected but missing.
    ExpectedKey,
    /// Syntax error: An equal sign was expected but missing.
    ExpectedEquals,
    /// Syntax error: A raw string is not terminated properly.
    UnterminatedRaw,
}

impl Kind {
    /// The human-readable description of this error kind.
    pub fn message(&self) -> (r: &'static str)
        ensures
            *self == Kind::ExpectedSectionEnd ==> r@ == "expected \"]\""@,
            *self == Kind::InvalidKey ==> r@ == "invalid key, can not start or end with a dot"@,
            *self == Kind::ExpectedKey ==> r@ == "expected key"@,
            *self == Kind::ExpectedEquals ==> r@ == "expected \"=\""@,
            *self == Kind::UnterminatedRaw ==> r@ == "unterminated raw value"@,
    {
        match self {
            Kind::ExpectedSectionEnd => "expected \"]\"",
            Kind::InvalidKey => "invalid key, can not start or end with a dot",
            Kind::ExpectedKey => "expected key",
            Kind::ExpectedEquals => "expected \"=\"",
            Kind::UnterminatedRaw => "unterminated raw value",
        }
    }
}

} // verus!
