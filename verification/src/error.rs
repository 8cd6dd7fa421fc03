//! The ways in which a compilation fails.
use vstd::prelude::*;
use vstd::string::*;
use crate::chars::{join, join3};
use crate::token::{TokenKind, kind_name, name_of_kind};

verus! {

/// Why a compilation stopped, as contracts speak of it. Every failure is
/// final: the first one ends the compilation.
pub enum Failure {
    /// The scanner could not read the token that was to become the current
    /// one.
    Lexing,
    /// The current token, with the lexeme `text`, is of kind `found` where
    /// the grammar asks for `expected`.
    Syntax { expected: TokenKind, found: TokenKind, text: Seq<char> },
    /// No statement starts with the current token.
    InvalidStatement { text: Seq<char>, kind: TokenKind },
    /// The current token is neither a number nor an identifier where an
    /// operand must stand.
    UnexpectedToken { text: Seq<char> },
    /// A condition lacks its comparison operator.
    MissingComparison { text: Seq<char> },
    /// The label `name` is declared a second time.
    DuplicateLabel { name: Seq<char> },
    /// A jump goes to the label `name`, which the program declares nowhere.
    UndeclaredLabel { name: Seq<char> },
    /// The variable `name` is read before anything was assigned to it.
    UndeclaredVariable { name: Seq<char> },
}

/// Why a compilation stopped.
#[derive(Debug, PartialEq, Eq)]
pub enum CompileError {
    /// The scanner could not read the token that was to become the current
    /// one.
    Lexing,
    /// The current token, with the lexeme `text`, is of kind `found` where
    /// the grammar asks for `expected`.
    Syntax { expected: TokenKind, found: TokenKind, text: String },
    /// No statement starts with the current token.
    InvalidStatement { text: String, kind: TokenKind },
    /// The current token is neither a number nor an identifier where an
    /// operand must stand.
    UnexpectedToken { text: String },
    /// A condition lacks its comparison operator.
    MissingComparison { text: String },
    /// The label `name` is declared a second time.
    DuplicateLabel { name: String },
    /// A jump goes to the label `name`, which the program declares nowhere.
    UndeclaredLabel { name: String },
    /// The variable `name` is read before anything was assigned to it.
    UndeclaredVariable { name: String },
}

impl View for CompileError {
    type V = Failure;

    open spec fn view(&self) -> Failure {
        match *self {
            CompileError::Lexing => Failure::Lexing,
            CompileError::Syntax { expected, found, text } => Failure::Syntax {
                expected,
                found,
                text: text@,
            },
            CompileError::InvalidStatement { text, kind } => Failure::InvalidStatement {
                text: text@,
                kind,
            },
            CompileError::UnexpectedToken { text } => Failure::UnexpectedToken { text: text@ },
            CompileError::MissingComparison { text } => Failure::MissingComparison {
                text: text@,
            },
            CompileError::DuplicateLabel { name } => Failure::DuplicateLabel { name: name@ },
            CompileError::UndeclaredLabel { name } => Failure::UndeclaredLabel { name: name@ },
            CompileError::UndeclaredVariable { name } => Failure::UndeclaredVariable {
                name: name@,
            },
        }
    }
}

/// The diagnostic for a failure.
pub open spec fn message_of(failure: Failure) -> Seq<char> {
    match failure {
        Failure::Lexing => "invalid lexing token"@,
        Failure::Syntax { expected, found, text } => "Expected "@ + kind_name(expected)
            + ", got "@ + kind_name(found) + " at "@ + text,
        Failure::InvalidStatement { text, kind } => "Invalid statement at "@ + text + " ("@
            + kind_name(kind) + ")"@,
        Failure::UnexpectedToken { text } => "Unexpected token at "@ + text,
        Failure::MissingComparison { text } => "Expected comparison operator at: "@ + text,
        Failure::DuplicateLabel { name } => "Label already exists: "@ + name,
        Failure::UndeclaredLabel { name } => "Attempting to GOTO to undeclared label: "@ + name,
        Failure::UndeclaredVariable { name } => "Referencing variable before assignment: "@
            + name,
    }
}

impl CompileError {
    /// The diagnostic for this error.
    pub fn message(&self) -> (text: String)
        ensures
            text@ == message_of(self@),
    {
        match self {
            CompileError::Lexing => String::from_str("invalid lexing token"),
            CompileError::Syntax { expected, found, text } => {
                let mut message = join("Expected ", name_of_kind(*expected));
                message.append(", got ");
                message.append(name_of_kind(*found));
                message.append(" at ");
                message.append(text.as_str());
                message
            },
            CompileError::InvalidStatement { text, kind } => {
                let mut message = join3("Invalid statement at ", text.as_str(), " (");
                message.append(name_of_kind(*kind));
                message.append(")");
                message
            },
            CompileError::UnexpectedToken { text } => join("Unexpected token at ", text.as_str()),
            CompileError::MissingComparison { text } => join(
                "Expected comparison operator at: ",
                text.as_str(),
            ),
            CompileError::DuplicateLabel { name } => join("Label already exists: ", name.as_str()),
            CompileError::UndeclaredLabel { name } => join(
                "Attempting to GOTO to undeclared label: ",
                name.as_str(),
            ),
            CompileError::UndeclaredVariable { name } => join(
                "Referencing variable before assignment: ",
                name.as_str(),
            ),
        }
    }
}

} // verus!
