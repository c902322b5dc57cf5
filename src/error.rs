//! What can go wrong while handling one command.
use vstd::prelude::*;
use vstd::string::*;

verus! {

/// Why a command produced no reply text.
#[derive(Clone, Debug)]
pub enum ErrorKind {
    /// The command does not split into a pattern and a replacement.
    InvalidDelimiterCount,
    /// The regular expression engine rejected the pattern; its diagnostic.
    PatternSyntax(String),
    /// The substitution left nothing to send.
    EmptyResult,
    /// A match boundary fell inside a character, so the result is not text.
    BrokenCharacter,
}

impl ErrorKind {
    /// The text shown to the user for this error.
    pub fn message(&self) -> (r: String)
        ensures
            self is InvalidDelimiterCount ==> r@ == "Invalid number of delimiters!"@,
            self is PatternSyntax ==> r@ == self->PatternSyntax_0@,
            self is EmptyResult ==> r@ == "`java.lang.NullPointerException: Empty Message`"@,
            self is BrokenCharacter ==> r@ == "The result is not valid text: a match split a character"@,
    {
        match self {
            ErrorKind::InvalidDelimiterCount => String::from_str("Invalid number of delimiters!"),
            ErrorKind::PatternSyntax(m) => m.clone(),
            ErrorKind::EmptyResult => String::from_str(
                "`java.lang.NullPointerException: Empty Message`",
            ),
            ErrorKind::BrokenCharacter => String::from_str(
                "The result is not valid text: a match split a character",
            ),
        }
    }
}

} // verus!
