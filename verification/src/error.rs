//! Errors of the lexer and of the parser built on it.

use vstd::prelude::*;
use crate::lexer::token::TextPos;
use crate::parser::ExprToken;

verus! {

/// Represents an error that occurred during parsing.
#[derive(Debug, PartialEq, Clone)]
pub enum ParserError {
    /// A lexing error that occurred during parsing. See [`LexerError`].
    LexerError(LexerError),
    /// A whole expression was read, but it is followed by this token in place of the
    /// end of the text.
    UnexpectedToken(ExprToken),
    /// This token cannot begin an operand.
    UnexpectedPrefixToken(ExprToken),
    /// A closing parenthesis (or, between arguments, a comma) was expected, and this
    /// token was found.
    MissingExprRParen(ExprToken),
}

/// Represents an error that occurred in the [`Lexer`](crate::Lexer).
#[derive(Debug, PartialEq, Clone)]
pub enum LexerError {
    /// Unexpected string error. Occurs when the given string is not recognized.
    UnexpectedString {
        /// The unexpected string
        str: String,
        /// Position of the string in the text
        pos: TextPos,
    },
    /// Unexpected character error. Occurs when the given character is not expected in
    /// the context.
    UnexpectedChar {
        /// The unexpected character
        c: char,
        /// Position of the character in the text
        pos: TextPos,
    },
    /// Integer parsing error. Occurs when an integer string does not parse into an `i64`.
    IntegerParsingError {
        /// The integer string that produced the parsing error
        str: String,
        /// The position of the integer string in the text
        pos: TextPos,
    },
    /// Float parsing error. Occurs when a float string does not parse into an `f64`.
    FloatParsingError {
        /// The float string that produced the parsing error
        str: String,
        /// The position of the float string in the text
        pos: TextPos,
    },
    /// Missing closing delimiter error. Occurs when a closing delimiter was not found
    /// for a given opening delimiter.
    MissingClosingDelimiter {
        /// The opening delimiter that was found
        open: String,
        /// The closing delimiter that was expected but not found
        expected: String,
        /// The position in the text of the opening delimiter
        pos: TextPos,
    },
}

/// A [`LexerError`] with its strings taken as character sequences and its position
/// as (line, column).
pub enum LexerErrorView {
    UnexpectedString { text: Seq<char>, pos: (int, int) },
    UnexpectedChar { c: char, pos: (int, int) },
    IntegerParsingError { text: Seq<char>, pos: (int, int) },
    FloatParsingError { text: Seq<char>, pos: (int, int) },
    MissingClosingDelimiter { open: Seq<char>, expected: Seq<char>, pos: (int, int) },
}

impl View for LexerError {
    type V = LexerErrorView;

    open spec fn view(&self) -> LexerErrorView {
        match self {
            LexerError::UnexpectedString { str, pos } => LexerErrorView::UnexpectedString {
                text: str@,
                pos: pos@,
            },
            LexerError::UnexpectedChar { c, pos } => LexerErrorView::UnexpectedChar {
                c: *c,
                pos: pos@,
            },
            LexerError::IntegerParsingError { str, pos } => LexerErrorView::IntegerParsingError {
                text: str@,
                pos: pos@,
            },
            LexerError::FloatParsingError { str, pos } => LexerErrorView::FloatParsingError {
                text: str@,
                pos: pos@,
            },
            LexerError::MissingClosingDelimiter { open, expected, pos } =>
                LexerErrorView::MissingClosingDelimiter {
                open: open@,
                expected: expected@,
                pos: pos@,
            },
        }
    }
}

impl LexerError {
    /// A copy of this error with the same strings and position.
    pub(crate) fn copied(&self) -> (r: Self)
        ensures
            r@ == self@,
    {
        match self {
            LexerError::UnexpectedString { str, pos } => LexerError::UnexpectedString {
                str: str.clone(),
                pos: *pos,
            },
            LexerError::UnexpectedChar { c, pos } => LexerError::UnexpectedChar { c: *c, pos: *pos },
            LexerError::IntegerParsingError { str, pos } => LexerError::IntegerParsingError {
                str: str.clone(),
                pos: *pos,
            },
            LexerError::FloatParsingError { str, pos } => LexerError::FloatParsingError {
                str: str.clone(),
                pos: *pos,
            },
            LexerError::MissingClosingDelimiter { open, expected, pos } =>
                LexerError::MissingClosingDelimiter {
                open: open.clone(),
                expected: expected.clone(),
                pos: *pos,
            },
        }
    }
}

impl From<LexerError> for ParserError {
    fn from(e: LexerError) -> (r: Self) {
        ParserError::LexerError(e)
    }
}

impl vstd::std_specs::convert::FromSpecImpl<LexerError> for ParserError {
    open spec fn obeys_from_spec() -> bool {
        true
    }

    open spec fn from_spec(e: LexerError) -> Self {
        ParserError::LexerError(e)
    }
}

/// Result from parsing a text into expressions.
pub type ParserResult<T> = Result<T, ParserError>;

/// Result from lexing a text into tokens.
pub type LexerResult<T> = Result<T, LexerError>;

} // verus!
