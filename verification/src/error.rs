//! The ways in which a formatting run can fail.

use vstd::prelude::*;

verus! {

/// Why a rule table was refused or a run gave no text.
#[derive(Clone, Copy, Debug, PartialEq, Eq, Structural)]
pub enum FormatError {
    /// More than one indent rule matches one block of the tree.
    AmbiguousIndentRule,
    /// The tree holds no token.
    EmptyInput,
    /// A rule names a kind that the grammar does not have.
    InvalidPattern,
}

impl FormatError {
    /// A short description of the failure.
    pub fn message(&self) -> (res: String)
        ensures
            res@ == (match *self {
                FormatError::AmbiguousIndentRule => "more than one indent rule matched"@,
                FormatError::EmptyInput => "the tree has no tokens"@,
                FormatError::InvalidPattern => "a rule names an unknown kind"@,
            }),
    {
        match self {
            FormatError::AmbiguousIndentRule => "more than one indent rule matched".to_owned(),
            FormatError::EmptyInput => "the tree has no tokens".to_owned(),
            FormatError::InvalidPattern => "a rule names an unknown kind".to_owned(),
        }
    }
}

} // verus!
