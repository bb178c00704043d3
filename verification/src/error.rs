//! The errors that scanning, parsing and evaluation report, and the
//! messages they are shown with.

use vstd::prelude::*;
use crate::text::{decimal, decimal_string};
use crate::token::{Token, TokenModel, TokenType};

verus! {

/// An error found while evaluating: the token it is reported at, and why.
#[derive(Debug, PartialEq)]
pub struct EvalError {
    pub token: Token,
    pub message: String,
}

/// An error found while parsing: the token it is reported at, and why.
#[derive(Debug, PartialEq)]
pub struct ParseError {
    pub token: Token,
    pub message: String,
}

/// An error found while scanning: where it was found, the text it was
/// found at (empty when there is none to show), and why.
#[derive(Debug, PartialEq)]
pub struct SyntaxError {
    pub line: usize,
    pub column: usize,
    pub lexeme: String,
    pub message: String,
}

impl EvalError {
    pub fn new(token: &Token, message: &str) -> (r: Self)
        ensures
            r.token == *token,
            r.message@ == message@,
    {
        EvalError { token: token.clone(), message: String::from_str(message) }
    }

    /// The text this error is shown with.
    pub fn to_message(&self) -> (r: String)
        ensures
            r@ == "Evaluation error on "@ + location_text(self.token@) + ": "@ + self.message@,
    {
        let mut s = String::from_str("Evaluation error on ");
        s.append(format_token_location(&self.token).as_str());
        s.append(": ");
        s.append(self.message.as_str());
        s
    }
}

impl ParseError {
    pub fn new(token: &Token, message: &str) -> (r: Self)
        ensures
            r.token == *token,
            r.message@ == message@,
    {
        ParseError { token: token.clone(), message: String::from_str(message) }
    }

    /// The text this error is shown with.
    pub fn to_message(&self) -> (r: String)
        ensures
            r@ == "Parse error on "@ + location_text(self.token@) + ": "@ + self.message@,
    {
        let mut s = String::from_str("Parse error on ");
        s.append(format_token_location(&self.token).as_str());
        s.append(": ");
        s.append(self.message.as_str());
        s
    }
}

/// The mathematical value of a syntax error.
pub struct SyntaxErrorModel {
    pub line: nat,
    pub column: nat,
    pub lexeme: Seq<char>,
    pub message: Seq<char>,
}

impl View for SyntaxError {
    type V = SyntaxErrorModel;

    open spec fn view(&self) -> SyntaxErrorModel {
        SyntaxErrorModel {
            line: self.line as nat,
            column: self.column as nat,
            lexeme: self.lexeme@,
            message: self.message@,
        }
    }
}

/// The text a syntax error is shown with.
pub open spec fn syntax_error_text(e: SyntaxErrorModel) -> Seq<char> {
    let at = "Syntax error on line "@ + decimal(e.line) + ":"@ + decimal(e.column);
    if e.lexeme.len() == 0 {
        at + ": "@ + e.message
    } else {
        at + " at '"@ + e.lexeme + "': "@ + e.message
    }
}

impl SyntaxError {
    pub fn new(line: usize, column: usize, lexeme: String, message: &str) -> (r: Self)
        ensures
            r.line == line,
            r.column == column,
            r.lexeme == lexeme,
            r.message@ == message@,
    {
        SyntaxError { line, column, lexeme, message: String::from_str(message) }
    }

    /// The text this error is shown with.
    pub fn to_message(&self) -> (r: String)
        ensures
            r@ == syntax_error_text(self@),
    {
        let mut s = String::from_str("Syntax error on line ");
        s.append(decimal_string(self.line).as_str());
        s.append(":");
        s.append(decimal_string(self.column).as_str());
        if self.lexeme.as_str().is_empty() {
            s.append(": ");
        } else {
            s.append(" at '");
            s.append(self.lexeme.as_str());
            s.append("': ");
        }
        s.append(self.message.as_str());
        s
    }
}

/// Where a token stands, as error messages show it.
pub open spec fn location_text(t: TokenModel) -> Seq<char> {
    let at = "line "@ + decimal(t.line) + ":"@ + decimal(t.column);
    if t.token_type == TokenType::Eof {
        at + " at end"@
    } else {
        at + " at '"@ + t.lexeme + "'"@
    }
}

/// Where a token stands, as error messages show it.
pub fn format_token_location(token: &Token) -> (r: String)
    ensures
        r@ == location_text(token@),
{
    let mut s = String::from_str("line ");
    s.append(decimal_string(token.line).as_str());
    s.append(":");
    s.append(decimal_string(token.column).as_str());
    match token.token_type {
        TokenType::Eof => {
            s.append(" at end");
        },
        _ => {
            s.append(" at '");
            s.append(token.lexeme.as_str());
            s.append("'");
        },
    }
    s
}

} // verus!
