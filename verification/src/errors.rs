use vstd::prelude::*;

verus! {

/// What can go wrong while a proposition is decided or tabulated.
#[derive(Debug)]
pub enum RaaError {
    /// The placeholder proposition was met where a real one is needed.
    VoidExpression,
    /// The proposition has more variables than a truth table may have.
    TooManyVariables,
    /// A variable has no value in the assignment at hand.
    UndefinedVariable { name: String },
    /// Text could not be rendered.
    FormatError,
}

impl RaaError {
    /// The message that belongs to this error.
    pub fn message(&self) -> (text: String)
        ensures
            text@ == self.spec_message(),
    {
        match self {
            RaaError::VoidExpression => String::from_str(
                "Tried to use a void expression (internal error)",
            ),
            RaaError::TooManyVariables => String::from_str(
                "Too many variables for truth table generation",
            ),
            RaaError::UndefinedVariable { name } => {
                String::from_str("Variable ").concat(name.as_str()).concat(" not defined")
            },
            RaaError::FormatError => String::from_str(
                "an error occurred when formatting an argument",
            ),
        }
    }

    /// The text of [`RaaError::message`].
    pub open spec fn spec_message(&self) -> Seq<char> {
        match self {
            RaaError::VoidExpression => "Tried to use a void expression (internal error)"@,
            RaaError::TooManyVariables => "Too many variables for truth table generation"@,
            RaaError::UndefinedVariable { name } => "Variable "@ + name@ + " not defined"@,
            RaaError::FormatError => "an error occurred when formatting an argument"@,
        }
    }
}

} // verus!
