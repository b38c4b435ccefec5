use vstd::prelude::*;

verus! {

/// Every failure the evaluator reports to its caller.  Malformed input,
/// missing symbols and missing rule contexts all surface as a value of
/// this type; no query ever aborts the process.
#[derive(Debug, Clone, PartialEq, Eq)]
pub enum YariError {
    /// The query text does not belong to the expression grammar.
    ParserError,
    /// The expression was understood but could not be evaluated.
    EvalError,
    /// A path or function name has no resolvable target.
    SymbolNotFound(String),
    /// A module-data argument was not written as `MODULE=DATA`.
    ModuleDataError,
    /// A leading path segment does not name a known module.
    UnknownModule(String),
    /// The evaluation context could not be put together.
    ContextBuilderError(String),
    /// A rule context was required but no compiled rule provides it.
    RuleMissingError,
    /// A string predicate names a string the rule does not declare.
    UndeclaredStringError,
    /// A match index is larger than the number of recorded matches.
    IndexOutOfBounds,
    /// A container-typed value was used where a boolean was required.
    BoolConversionError,
    /// A failure in the external engine outside this crate's control.
    Unknown,
}

impl YariError {
    /// A human-readable description of the error.
    pub fn message(&self) -> (r: String)
        ensures
            r@ == self.spec_message(),
    {
        match self {
            YariError::ParserError => String::from_str("cannot parse the expression"),
            YariError::EvalError => String::from_str("cannot evaluate the expression"),
            YariError::SymbolNotFound(name) => String::from_str("cannot find symbol '").concat(
                name.as_str(),
            ).concat("'"),
            YariError::ModuleDataError => String::from_str(
                "module data expected in format 'MODULE=DATA'",
            ),
            YariError::UnknownModule(name) => String::from_str("unknown module '").concat(
                name.as_str(),
            ).concat("'"),
            YariError::ContextBuilderError(msg) => String::from_str(
                "context builder error: '",
            ).concat(msg.as_str()).concat("'"),
            YariError::RuleMissingError => String::from_str(
                "cannot evaluate expression because of missing rule context",
            ),
            YariError::UndeclaredStringError => String::from_str(
                "cannot evaluate undeclared string",
            ),
            YariError::IndexOutOfBounds => String::from_str("index out of bounds"),
            YariError::BoolConversionError => String::from_str(
                "this type cannot be used as bool",
            ),
            YariError::Unknown => String::from_str("unknown data store error"),
        }
    }

    /// What `message` returns, for use in contracts.
    pub open spec fn spec_message(&self) -> Seq<char> {
        match self {
            YariError::ParserError => "cannot parse the expression"@,
            YariError::EvalError => "cannot evaluate the expression"@,
            YariError::SymbolNotFound(name) => "cannot find symbol '"@ + name@ + "'"@,
            YariError::ModuleDataError => "module data expected in format 'MODULE=DATA'"@,
            YariError::UnknownModule(name) => "unknown module '"@ + name@ + "'"@,
            YariError::ContextBuilderError(msg) => "context builder error: '"@ + msg@ + "'"@,
            YariError::RuleMissingError => "cannot evaluate expression because of missing rule context"@,
            YariError::UndeclaredStringError => "cannot evaluate undeclared string"@,
            YariError::IndexOutOfBounds => "index out of bounds"@,
            YariError::BoolConversionError => "this type cannot be used as bool"@,
            YariError::Unknown => "unknown data store error"@,
        }
    }
}

} // verus!
