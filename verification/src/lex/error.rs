//! Errors of lexical analysis.

use vstd::prelude::*;
use vstd::string::*;
use crate::text::{decimal, decimal_string};

verus! {

/// Why scanning stopped.
#[derive(Debug, PartialEq, Clone)]
pub enum TokenError {
    /// A string literal was still open at the end of the source; holds the
    /// text from the opening quote on.
    NonTerminatedString(String),
    /// A character that starts no token; holds that character.
    UnexpectedToken(String),
    /// The source ended inside a token.
    UnexpectedEOF,
}

impl TokenError {
    /// The text of the error for a failure on line `line`.
    pub open spec fn message_spec(&self, line: u32) -> Seq<char> {
        let head = "[line "@ + decimal(line as nat) + "] Error: "@;
        match self {
            TokenError::NonTerminatedString(text) => head + "String `"@ + text@
                + "` is not terminated"@,
            TokenError::UnexpectedToken(text) => head + "Unexpected character '"@ + text@ + "'"@,
            TokenError::UnexpectedEOF => head + "Unexpected end of file"@,
        }
    }

    /// The text of the error for a failure on line `line`.
    pub fn message(&self, line: u32) -> (text: String)
        ensures
            text@ == self.message_spec(line),
    {
        let mut message = String::from_str("[line ");
        message.append(decimal_string(line as u64).as_str());
        message.append("] Error: ");
        match self {
            TokenError::NonTerminatedString(text) => {
                message.append("String `");
                message.append(text.as_str());
                message.append("` is not terminated");
            },
            TokenError::UnexpectedToken(text) => {
                message.append("Unexpected character '");
                message.append(text.as_str());
                message.append("'");
            },
            TokenError::UnexpectedEOF => {
                message.append("Unexpected end of file");
            },
        }
        message
    }
}

} // verus!
