//! A Pratt parser and its lexer: the lexer turns text into operator, identifier,
//! number and delimited tokens, each with the line and column where it starts; the
//! parser turns an arithmetic expression into an expression tree by operator
//! precedence.

mod error;
mod lexer;
pub mod parser;

pub use error::{LexerError, LexerErrorView, LexerResult, ParserError, ParserResult};
pub use lexer::chars::{string_prefixes, valid_identifier_char};
pub use lexer::default_types::{
    lemma_null_delimiter_clones_exactly, DefaultOperators, Delimiter, NullDelimiter, Operator,
};
pub use lexer::semantics;
pub use lexer::token::{clones_exactly, TextPos, Token, TokenPos, TokenPosView, TokenView};
pub use lexer::{
    default_rules, delimiters_of, kept_delimiters, kept_values, lemma_built_alike,
    lemma_built_default, outcome_agrees, rules_from, same_delimiters, symbol_of, Lexer,
};
pub use parser::{Expr, ExprSymbol, ExprToken, ExprView, Parser, ParserErrorView};
