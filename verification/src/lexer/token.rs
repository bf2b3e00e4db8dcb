//! Tokens, text positions and their abstract views.

use vstd::prelude::*;
use crate::lexer::default_types::Delimiter;

verus! {

/// Represents valid tokens produced by the Lexer.
///
/// `O` and `D` are the [`Operator`](crate::Operator) and
/// [`Delimiter`](crate::Delimiter) types.
#[derive(Debug, PartialEq, Clone)]
pub enum Token<O, D> {
    /// Integer types: "256", "100", etc.
    Int(i64),
    /// Float types: "3.14", "0.0001", etc. Holds the literal, which `str::parse::<f64>`
    /// accepts.
    Float(String),
    /// Identifiers: "hello", "my_identifier23", etc.
    Ident(String),
    /// User-defined operators: "+", "<--", "-", etc.
    Op(O),
    /// User-defined delimited types: "[bracketed_type]", "\"strings\"", etc.
    Delimited(D),
    /// Represents the end of the input text
    Eof,
}

impl<O, D> Token<O, D> {
    /// Whether this is an integer token.
    pub fn is_int(&self) -> (r: bool)
        ensures
            r == (*self is Int),
    {
        match self {
            Token::Int(_) => true,
            _ => false,
        }
    }

    /// Whether this is a float token.
    pub fn is_float(&self) -> (r: bool)
        ensures
            r == (*self is Float),
    {
        match self {
            Token::Float(_) => true,
            _ => false,
        }
    }

    /// Whether this is an identifier token.
    pub fn is_ident(&self) -> (r: bool)
        ensures
            r == (*self is Ident),
    {
        match self {
            Token::Ident(_) => true,
            _ => false,
        }
    }

    /// Whether this is an operator token.
    pub fn is_op(&self) -> (r: bool)
        ensures
            r == (*self is Op),
    {
        match self {
            Token::Op(_) => true,
            _ => false,
        }
    }

    /// Whether this is a delimited token.
    pub fn is_delimited(&self) -> (r: bool)
        ensures
            r == (*self is Delimited),
    {
        match self {
            Token::Delimited(_) => true,
            _ => false,
        }
    }

    /// Whether this is the end-of-text token.
    pub fn is_eof(&self) -> (r: bool)
        ensures
            r == (*self is Eof),
    {
        match self {
            Token::Eof => true,
            _ => false,
        }
    }
}

/// Represents a position in a text. Stored as (line, column).
///
/// For example, the first character in a given text is (1, 1).
#[derive(Clone, Copy, Debug, PartialEq, Eq)]
pub struct TextPos {
    /// The line in the text. Starts at 1.
    pub line: usize,
    /// The column in the text. Starts at 1.
    pub col: usize,
}

impl View for TextPos {
    type V = (int, int);

    open spec fn view(&self) -> (int, int) {
        (self.line as int, self.col as int)
    }
}

impl Default for TextPos {
    fn default() -> (r: Self)
        ensures
            r.line == 1,
            r.col == 1,
    {
        TextPos { line: 1, col: 1 }
    }
}

/// Represents a token at the given position (line, col).
///
/// `pos` is `None` for the end of the text.
#[derive(Debug, PartialEq, Clone)]
pub struct TokenPos<O, D> {
    /// The [`Token`] at this position
    pub token: Token<O, D>,
    /// The [`TextPos`] position of this token; `None` at the end of the text.
    pub pos: Option<TextPos>,
}

impl<O, D> TokenPos<O, D> {
    /// Create a new [`TokenPos`] with the provided [`Token`] and [`TextPos`].
    pub fn new(token: Token<O, D>, pos: TextPos) -> (r: Self)
        ensures
            r.token == token,
            r.pos == Some(pos),
    {
        TokenPos { token, pos: Some(pos) }
    }

    /// Return a `Token::Eof` with `None` as the position.
    pub fn eof() -> (r: Self)
        ensures
            r.token is Eof,
            r.pos is None,
    {
        TokenPos { token: Token::Eof, pos: None }
    }
}

/// A token as the lexer's rules see it: operators and delimited types by their index
/// in the lexer's tables, strings as character sequences.
pub enum TokenView {
    Int(i64),
    Float(Seq<char>),
    Ident(Seq<char>),
    /// The operator at this index of the lexer's operator table.
    Op(int),
    /// The delimited type at this index of the lexer's delimiter table, with the text
    /// found between its delimiters.
    Delimited(int, Seq<char>),
    Eof,
}

/// A token with the (line, column) where it starts; `None` at the end of the text.
pub struct TokenPosView {
    pub token: TokenView,
    pub pos: Option<(int, int)>,
}

/// Every clone of a value of `D` is that same value.
pub open spec fn clones_exactly<D: Clone>() -> bool {
    forall|a: D, b: D| #[trigger] cloned::<D>(a, b) ==> a == b
}

/// The token `tok` is what `v` describes, given the lexer's operators `ops` and its
/// delimited values `dls`: a delimited token is a clone of the value of its delimited
/// type, filled by `Delimiter::set` with the text between the delimiters.
pub open spec fn token_agrees<O, D: Delimiter>(
    tok: Token<O, D>,
    v: TokenView,
    ops: Seq<O>,
    dls: Seq<D>,
) -> bool {
    match v {
        TokenView::Int(n) => tok == Token::<O, D>::Int(n),
        TokenView::Float(s) => tok matches Token::Float(x) && x@ == s,
        TokenView::Ident(s) => tok matches Token::Ident(x) && x@ == s,
        TokenView::Op(i) => 0 <= i < ops.len() && tok == Token::<O, D>::Op(ops[i]),
        TokenView::Delimited(j, s) => {
            &&& 0 <= j < dls.len()
            &&& tok matches Token::Delimited(x) && exists|d0: D, text: String|
                cloned::<D>(dls[j], d0) && text@ == s && x == #[trigger] d0.filled(text)
        },
        TokenView::Eof => tok is Eof,
    }
}

/// The positioned token `tp` is what `v` describes, given the lexer's operators `ops`
/// and its delimited values `dls`.
pub open spec fn token_pos_agrees<O, D: Delimiter>(
    tp: TokenPos<O, D>,
    v: TokenPosView,
    ops: Seq<O>,
    dls: Seq<D>,
) -> bool {
    &&& token_agrees(tp.token, v.token, ops, dls)
    &&& match v.pos {
        None => tp.pos is None,
        Some(p) => tp.pos matches Some(q) && q@ == p,
    }
}

} // verus!
