//! Errors met while evaluating a syntax tree into a configuration.

use vstd::prelude::*;

use crate::syntax::TextRange;

verus! {

/// The mathematical shape of an evaluation error.
pub enum ConfigErrorModel {
    MissingSyntax { start: int, len: int },
    InvalidEscape { start: int, len: int, sequence: Seq<char> },
}

/// An error met during evaluation; processing continues past it.
#[derive(Debug, Clone)]
pub enum ConfigError {
    /// A required syntax element was missing or malformed in the tree;
    /// the parser reported the underlying problem already.
    MissingSyntax { range: TextRange },
    /// An unrecognized or truncated escape sequence in a quoted string or
    /// quoted key.
    InvalidEscape { range: TextRange, sequence: String },
}

impl View for ConfigError {
    type V = ConfigErrorModel;

    open spec fn view(&self) -> ConfigErrorModel {
        match self {
            ConfigError::MissingSyntax { range } => ConfigErrorModel::MissingSyntax {
                start: range.start as int,
                len: range.len as int,
            },
            ConfigError::InvalidEscape { range, sequence } => ConfigErrorModel::InvalidEscape {
                start: range.start as int,
                len: range.len as int,
                sequence: sequence@,
            },
        }
    }
}

} // verus!
