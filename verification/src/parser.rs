//! The Pratt parser: turns the tokens of an arithmetic expression into an expression
//! tree, by operator precedence.

use vstd::prelude::*;
use vstd::string::StringExecFns;
use crate::error::{LexerErrorView, ParserError, ParserResult};
use crate::lexer::default_types::{DefaultOperators, NullDelimiter, Operator};
use crate::lexer::semantics::{lex_all_outcome, LexRun, Rules};
use crate::lexer::token::{token_pos_agrees, Token, TokenPosView, TokenView};
use crate::lexer::{symbol_of, Lexer};

verus! {

/// The symbols of the expression language: its operators, the parentheses and the
/// comma that separates the arguments of a call.
#[derive(Clone, Copy, Debug, PartialEq, Eq, Structural)]
pub enum ExprSymbol {
    /// `+`
    Add,
    /// `-`, also the unary minus
    Sub,
    /// `*`
    Mul,
    /// `/`
    Div,
    /// `^`
    Pow,
    /// `(`
    LParen,
    /// `)`
    RParen,
    /// `,`
    Comma,
}

impl ExprSymbol {
    /// The text of each symbol.
    pub open spec fn text(self) -> Seq<char> {
        match self {
            ExprSymbol::Add => "+"@,
            ExprSymbol::Sub => "-"@,
            ExprSymbol::Mul => "*"@,
            ExprSymbol::Div => "/"@,
            ExprSymbol::Pow => "^"@,
            ExprSymbol::LParen => "("@,
            ExprSymbol::RParen => ")"@,
            ExprSymbol::Comma => ","@,
        }
    }

    /// All symbols, in declaration order.
    pub open spec fn all() -> Seq<ExprSymbol> {
        seq![
            ExprSymbol::Add,
            ExprSymbol::Sub,
            ExprSymbol::Mul,
            ExprSymbol::Div,
            ExprSymbol::Pow,
            ExprSymbol::LParen,
            ExprSymbol::RParen,
            ExprSymbol::Comma,
        ]
    }

    /// The place of the symbol in `all()`.
    pub open spec fn table_index(self) -> int {
        match self {
            ExprSymbol::Add => 0,
            ExprSymbol::Sub => 1,
            ExprSymbol::Mul => 2,
            ExprSymbol::Div => 3,
            ExprSymbol::Pow => 4,
            ExprSymbol::LParen => 5,
            ExprSymbol::RParen => 6,
            ExprSymbol::Comma => 7,
        }
    }

    /// The operator of an expression that the symbol stands for, if any.
    pub open spec fn operator(self) -> Option<DefaultOperators> {
        match self {
            ExprSymbol::Add => Some(DefaultOperators::Add),
            ExprSymbol::Sub => Some(DefaultOperators::Sub),
            ExprSymbol::Mul => Some(DefaultOperators::Mul),
            ExprSymbol::Div => Some(DefaultOperators::Div),
            ExprSymbol::Pow => Some(DefaultOperators::Pow),
            _ => None,
        }
    }
}

impl Operator for ExprSymbol {
    fn variants() -> (r: Vec<Self>)
        ensures
            r@ == ExprSymbol::all(),
    {
        vec![
            ExprSymbol::Add,
            ExprSymbol::Sub,
            ExprSymbol::Mul,
            ExprSymbol::Div,
            ExprSymbol::Pow,
            ExprSymbol::LParen,
            ExprSymbol::RParen,
            ExprSymbol::Comma,
        ]
    }

    fn symbol(&self) -> (r: String)
        ensures
            r@ == self.text(),
    {
        let s = match self {
            ExprSymbol::Add => "+",
            ExprSymbol::Sub => "-",
            ExprSymbol::Mul => "*",
            ExprSymbol::Div => "/",
            ExprSymbol::Pow => "^",
            ExprSymbol::LParen => "(",
            ExprSymbol::RParen => ")",
            ExprSymbol::Comma => ",",
        };
        String::from_str(s)
    }
}

/// A token of the expression language.
pub type ExprToken = Token<ExprSymbol, NullDelimiter>;

/// An expression tree.
#[derive(Debug, PartialEq)]
pub enum Expr {
    /// An integer.
    Int(i64),
    /// A float, as its literal (which `str::parse::<f64>` accepts).
    Float(String),
    /// A variable.
    Var(String),
    /// An operator applied to one operand (the unary minus).
    Unary { op: DefaultOperators, operand: Box<Expr> },
    /// An operator applied to two operands.
    Binary { op: DefaultOperators, lhs: Box<Expr>, rhs: Box<Expr> },
    /// A function applied to its arguments.
    Call { func: String, args: Vec<Expr> },
}

/// An expression tree with its strings as character sequences.
pub enum ExprView {
    Int(i64),
    Float(Seq<char>),
    Var(Seq<char>),
    Unary { op: DefaultOperators, operand: Box<ExprView> },
    Binary { op: DefaultOperators, lhs: Box<ExprView>, rhs: Box<ExprView> },
    Call { func: Seq<char>, args: Seq<ExprView> },
}

/// The view of an expression tree.
pub open spec fn expr_view(e: Expr) -> ExprView
    decreases e,
{
    match e {
        Expr::Int(n) => ExprView::Int(n),
        Expr::Float(s) => ExprView::Float(s@),
        Expr::Var(s) => ExprView::Var(s@),
        Expr::Unary { op, operand } => ExprView::Unary {
            op,
            operand: Box::new(expr_view(*operand)),
        },
        Expr::Binary { op, lhs, rhs } => ExprView::Binary {
            op,
            lhs: Box::new(expr_view(*lhs)),
            rhs: Box::new(expr_view(*rhs)),
        },
        Expr::Call { func, args } => ExprView::Call { func: func@, args: exprs_view(args@) },
    }
}

/// The views of a list of expression trees.
pub open spec fn exprs_view(es: Seq<Expr>) -> Seq<ExprView>
    decreases es,
{
    if es.len() == 0 {
        Seq::empty()
    } else {
        exprs_view(es.drop_last()).push(expr_view(es.last()))
    }
}

impl View for Expr {
    type V = ExprView;

    open spec fn view(&self) -> ExprView {
        expr_view(*self)
    }
}

/// A [`ParserError`](crate::ParserError) with its token taken as a token view.
pub enum ParserErrorView {
    LexerError(LexerErrorView),
    UnexpectedToken(TokenView),
    UnexpectedPrefixToken(TokenView),
    MissingExprRParen(TokenView),
}

/// The view of a token of the expression language: a symbol by its place in
/// `ExprSymbol::all()`. The language has no delimited type.
pub open spec fn token_view(t: ExprToken) -> TokenView {
    match t {
        Token::Int(n) => TokenView::Int(n),
        Token::Float(s) => TokenView::Float(s@),
        Token::Ident(s) => TokenView::Ident(s@),
        Token::Op(o) => TokenView::Op(o.table_index()),
        Token::Delimited(_) => TokenView::Delimited(0, Seq::empty()),
        Token::Eof => TokenView::Eof,
    }
}

/// The token at index `i`; past the last token, the end of the text.
pub open spec fn tok_at(ts: Seq<TokenView>, i: int) -> TokenView {
    if 0 <= i < ts.len() {
        ts[i]
    } else {
        TokenView::Eof
    }
}

/// The token is the symbol `s`.
pub open spec fn is_sym(t: TokenView, s: ExprSymbol) -> bool {
    t == TokenView::Op(s.table_index())
}

/// The operator that the token stands for, if it is an operator symbol.
pub open spec fn infix_op(t: TokenView) -> Option<DefaultOperators> {
    match t {
        TokenView::Op(i) => if 0 <= i < 8 {
            ExprSymbol::all()[i].operator()
        } else {
            None
        },
        _ => None,
    }
}

/// The left and right binding power of an infix operator: `+` and `-` bind least,
/// then `*` and `/`, and `^` most; `^` binds more weakly to its right than to its
/// left, which makes it associate to the right.
pub open spec fn infix_binding_power(op: DefaultOperators) -> Option<(int, int)> {
    match op {
        DefaultOperators::Add | DefaultOperators::Sub => Some((1, 2)),
        DefaultOperators::Mul | DefaultOperators::Div => Some((3, 4)),
        DefaultOperators::Pow => Some((8, 7)),
        _ => None,
    }
}

/// The binding power with which the unary minus takes its operand.
pub open spec fn unary_minus_power() -> int {
    5
}

/// A parsed expression and the index of the token after it, or the error met.
///
/// The parse functions below recurse only on a later token; the conditions `i < j`
/// that say so always hold (`lemma_expr_advances`), and only serve to show that the
/// definitions end.
pub type Parsed = Result<(ExprView, int), ParserErrorView>;

/// The expression starting at token `i`, taking infix operators whose left binding
/// power is at least `min_bp`.
pub open spec fn parse_expr_spec(ts: Seq<TokenView>, i: int, min_bp: int) -> Parsed
    decreases ts.len() - i, 2int,
{
    match parse_prefix_spec(ts, i) {
        Err(e) => Err(e),
        Ok((lhs, j)) => if i < j <= ts.len() {
            parse_infix_spec(ts, lhs, j, min_bp)
        } else {
            Ok((lhs, j))
        },
    }
}

/// The operand that starts at token `i`: a number, a variable, a call, a unary minus
/// or an expression in parentheses.
pub open spec fn parse_prefix_spec(ts: Seq<TokenView>, i: int) -> Parsed
    decreases ts.len() - i, 1int,
{
    let t = tok_at(ts, i);
    match t {
        TokenView::Int(n) => Ok((ExprView::Int(n), i + 1)),
        TokenView::Float(s) => Ok((ExprView::Float(s), i + 1)),
        TokenView::Ident(name) => if is_sym(tok_at(ts, i + 1), ExprSymbol::LParen) {
            parse_call_spec(ts, name, Seq::empty(), i + 2)
        } else {
            Ok((ExprView::Var(name), i + 1))
        },
        _ => if is_sym(t, ExprSymbol::Sub) {
            match parse_expr_spec(ts, i + 1, unary_minus_power()) {
                Err(e) => Err(e),
                Ok((e, j)) => Ok(
                    (ExprView::Unary { op: DefaultOperators::Sub, operand: Box::new(e) }, j),
                ),
            }
        } else if is_sym(t, ExprSymbol::LParen) {
            match parse_expr_spec(ts, i + 1, 0) {
                Err(e) => Err(e),
                Ok((e, j)) => if is_sym(tok_at(ts, j), ExprSymbol::RParen) {
                    Ok((e, j + 1))
                } else {
                    Err(ParserErrorView::MissingExprRParen(tok_at(ts, j)))
                },
            }
        } else {
            Err(ParserErrorView::UnexpectedPrefixToken(t))
        },
    }
}

/// The arguments of a call of `name` from token `i` on, after the arguments `args`
/// already read: expressions separated by commas, up to the closing parenthesis.
pub open spec fn parse_call_spec(
    ts: Seq<TokenView>,
    name: Seq<char>,
    args: Seq<ExprView>,
    i: int,
) -> Parsed
    decreases ts.len() - i, 3int,
{
    match parse_expr_spec(ts, i, 0) {
        Err(e) => Err(e),
        Ok((a, j)) => {
            let t = tok_at(ts, j);
            if is_sym(t, ExprSymbol::RParen) {
                Ok((ExprView::Call { func: name, args: args.push(a) }, j + 1))
            } else if is_sym(t, ExprSymbol::Comma) && i < j < ts.len() {
                parse_call_spec(ts, name, args.push(a), j + 1)
            } else {
                Err(ParserErrorView::MissingExprRParen(t))
            }
        },
    }
}

/// The expression `lhs`, which ends before token `i`, extended by the infix
/// operators from `i` on whose left binding power is at least `min_bp`.
pub open spec fn parse_infix_spec(ts: Seq<TokenView>, lhs: ExprView, i: int, min_bp: int) -> Parsed
    decreases ts.len() - i, 0int,
{
    match infix_op(tok_at(ts, i)) {
        None => Ok((lhs, i)),
        Some(op) => match infix_binding_power(op) {
            None => Ok((lhs, i)),
            Some((l, r)) => if l < min_bp {
                Ok((lhs, i))
            } else {
                match parse_expr_spec(ts, i + 1, r) {
                    Err(e) => Err(e),
                    Ok((rhs, j)) => {
                        let b = ExprView::Binary { op, lhs: Box::new(lhs), rhs: Box::new(rhs) };
                        if i < j <= ts.len() {
                            parse_infix_spec(ts, b, j, min_bp)
                        } else {
                            Ok((b, j))
                        }
                    },
                }
            },
        },
    }
}

/// A whole expression from token `i`: it must be followed by the end of the text.
pub open spec fn parse_spec(ts: Seq<TokenView>, i: int) -> Parsed {
    match parse_expr_spec(ts, i, 0) {
        Err(e) => Err(e),
        Ok((e, j)) => if tok_at(ts, j) is Eof {
            Ok((e, j))
        } else {
            Err(ParserErrorView::UnexpectedToken(tok_at(ts, j)))
        },
    }
}

/// Every parse that succeeds from a token of the list reads at least one token and
/// stops within the list.
pub proof fn lemma_expr_advances(ts: Seq<TokenView>, i: int, min_bp: int)
    requires
        0 <= i <= ts.len(),
    ensures
        parse_expr_spec(ts, i, min_bp) matches Ok((e, j)) ==> i < j <= ts.len(),
    decreases ts.len() - i, 2int,
{
    lemma_prefix_advances(ts, i);
    if let Ok((lhs, j)) = parse_prefix_spec(ts, i) {
        lemma_infix_advances(ts, lhs, j, min_bp);
    }
}

proof fn lemma_prefix_advances(ts: Seq<TokenView>, i: int)
    requires
        0 <= i <= ts.len(),
    ensures
        parse_prefix_spec(ts, i) matches Ok((e, j)) ==> i < j <= ts.len(),
    decreases ts.len() - i, 1int,
{
    let t = tok_at(ts, i);
    if i < ts.len() {
        match t {
            TokenView::Ident(name) => if is_sym(tok_at(ts, i + 1), ExprSymbol::LParen) {
                lemma_call_advances(ts, name, Seq::empty(), i + 2);
            },
            TokenView::Int(_) => {},
            TokenView::Float(_) => {},
            _ => if is_sym(t, ExprSymbol::Sub) {
                lemma_expr_advances(ts, i + 1, unary_minus_power());
            } else if is_sym(t, ExprSymbol::LParen) {
                lemma_expr_advances(ts, i + 1, 0);
            },
        }
    }
}

proof fn lemma_call_advances(ts: Seq<TokenView>, name: Seq<char>, args: Seq<ExprView>, i: int)
    requires
        0 <= i <= ts.len(),
    ensures
        parse_call_spec(ts, name, args, i) matches Ok((e, j)) ==> i < j <= ts.len(),
    decreases ts.len() - i, 3int,
{
    lemma_expr_advances(ts, i, 0);
    if let Ok((a, j)) = parse_expr_spec(ts, i, 0) {
        let t = tok_at(ts, j);
        if !is_sym(t, ExprSymbol::RParen) && is_sym(t, ExprSymbol::Comma) && i < j < ts.len() {
            lemma_call_advances(ts, name, args.push(a), j + 1);
        }
    }
}

proof fn lemma_infix_advances(ts: Seq<TokenView>, lhs: ExprView, i: int, min_bp: int)
    requires
        0 <= i <= ts.len(),
    ensures
        parse_infix_spec(ts, lhs, i, min_bp) matches Ok((e, j)) ==> i <= j <= ts.len(),
    decreases ts.len() - i, 0int,
{
    if let Some(op) = infix_op(tok_at(ts, i)) {
        if let Some((l, r)) = infix_binding_power(op) {
            if l >= min_bp {
                lemma_expr_advances(ts, i + 1, r);
                if let Ok((rhs, j)) = parse_expr_spec(ts, i + 1, r) {
                    let b = ExprView::Binary { op, lhs: Box::new(lhs), rhs: Box::new(rhs) };
                    lemma_infix_advances(ts, b, j, min_bp);
                }
            }
        }
    }
}

impl View for ParserError {
    type V = ParserErrorView;

    open spec fn view(&self) -> ParserErrorView {
        match self {
            ParserError::LexerError(e) => ParserErrorView::LexerError(e@),
            ParserError::UnexpectedToken(t) => ParserErrorView::UnexpectedToken(token_view(*t)),
            ParserError::UnexpectedPrefixToken(t) => ParserErrorView::UnexpectedPrefixToken(
                token_view(*t),
            ),
            ParserError::MissingExprRParen(t) => ParserErrorView::MissingExprRParen(token_view(*t)),
        }
    }
}

/// The views of a list of tokens.
pub open spec fn token_views(ts: Seq<ExprToken>) -> Seq<TokenView> {
    ts.map_values(|t: ExprToken| token_view(t))
}

/// What a parse result stands for: the expression's view and the index after it, or
/// the error's view.
pub open spec fn parsed_view(r: ParserResult<(Expr, usize)>) -> Parsed {
    match r {
        Ok((e, j)) => Ok((e@, j as int)),
        Err(x) => Err(x@),
    }
}

/// A copy of a token.
fn copy_token(t: &ExprToken) -> (r: ExprToken)
    ensures
        token_view(r) == token_view(*t),
{
    match t {
        Token::Int(n) => Token::Int(*n),
        Token::Float(s) => Token::Float(s.clone()),
        Token::Ident(s) => Token::Ident(s.clone()),
        Token::Op(o) => Token::Op(*o),
        Token::Delimited(d) => Token::Delimited(*d),
        Token::Eof => Token::Eof,
    }
}

/// A copy of the token at index `i`; past the last token, the end of the text.
fn token_at(ts: &Vec<ExprToken>, i: usize) -> (r: ExprToken)
    ensures
        token_view(r) == tok_at(token_views(ts@), i as int),
{
    if i < ts.len() {
        copy_token(&ts[i])
    } else {
        Token::Eof
    }
}

/// Whether the token at index `i` is the symbol `s`.
fn symbol_at(ts: &Vec<ExprToken>, i: usize, s: ExprSymbol) -> (r: bool)
    ensures
        r == is_sym(tok_at(token_views(ts@), i as int), s),
{
    if i < ts.len() {
        match &ts[i] {
            Token::Op(o) => *o == s,
            _ => false,
        }
    } else {
        false
    }
}

/// The infix operator at index `i` with its left and right binding power, if the
/// token there is one.
fn infix_at(ts: &Vec<ExprToken>, i: usize) -> (r: Option<(DefaultOperators, u8, u8)>)
    ensures
        match infix_op(tok_at(token_views(ts@), i as int)) {
            None => r is None,
            Some(op) => match infix_binding_power(op) {
                None => r is None,
                Some((lp, rp)) => r == Some((op, lp as u8, rp as u8)) && lp == lp as u8 && rp
                    == rp as u8,
            },
        },
{
    if i < ts.len() {
        match &ts[i] {
            Token::Op(ExprSymbol::Add) => Some((DefaultOperators::Add, 1, 2)),
            Token::Op(ExprSymbol::Sub) => Some((DefaultOperators::Sub, 1, 2)),
            Token::Op(ExprSymbol::Mul) => Some((DefaultOperators::Mul, 3, 4)),
            Token::Op(ExprSymbol::Div) => Some((DefaultOperators::Div, 3, 4)),
            Token::Op(ExprSymbol::Pow) => Some((DefaultOperators::Pow, 8, 7)),
            _ => None,
        }
    } else {
        None
    }
}

/// Parse the expression starting at token `i`, taking the infix operators whose left
/// binding power is at least `min_bp`.
fn parse_expr_at(ts: &Vec<ExprToken>, i: usize, min_bp: u8) -> (r: ParserResult<(Expr, usize)>)
    requires
        i <= ts@.len(),
    ensures
        parsed_view(r) == parse_expr_spec(token_views(ts@), i as int, min_bp as int),
    decreases ts@.len() - i, 2int,
{
    let ghost tv = token_views(ts@);
    proof {
        lemma_prefix_advances(tv, i as int);
    }
    let (lhs, j) = parse_prefix_at(ts, i)?;
    parse_infix_at(ts, lhs, j, min_bp)
}

/// Parse the operand that starts at token `i`.
fn parse_prefix_at(ts: &Vec<ExprToken>, i: usize) -> (r: ParserResult<(Expr, usize)>)
    requires
        i <= ts@.len(),
    ensures
        parsed_view(r) == parse_prefix_spec(token_views(ts@), i as int),
    decreases ts@.len() - i, 1int,
{
    let ghost tv = token_views(ts@);
    let n = ts.len();
    let t = token_at(ts, i);
    match t {
        Token::Int(n) => Ok((Expr::Int(n), i + 1)),
        Token::Float(s) => Ok((Expr::Float(s), i + 1)),
        Token::Ident(name) => {
            if i + 1 < ts.len() && symbol_at(ts, i + 1, ExprSymbol::LParen) {
                assert(exprs_view(Seq::<Expr>::empty()) =~= Seq::<ExprView>::empty());
                parse_call_at(ts, name, Vec::new(), i + 2)
            } else {
                Ok((Expr::Var(name), i + 1))
            }
        },
        Token::Op(ExprSymbol::Sub) => {
            let (e, j) = parse_expr_at(ts, i + 1, 5)?;
            Ok((Expr::Unary { op: DefaultOperators::Sub, operand: Box::new(e) }, j))
        },
        Token::Op(ExprSymbol::LParen) => {
            proof {
                lemma_expr_advances(tv, i + 1, 0);
            }
            let (e, j) = parse_expr_at(ts, i + 1, 0)?;
            if symbol_at(ts, j, ExprSymbol::RParen) {
                Ok((e, j + 1))
            } else {
                Err(ParserError::MissingExprRParen(token_at(ts, j)))
            }
        },
        _ => Err(ParserError::UnexpectedPrefixToken(t)),
    }
}

/// Parse the arguments of a call of `name` from token `i` on, after the arguments
/// `args` already read.
fn parse_call_at(ts: &Vec<ExprToken>, name: String, args: Vec<Expr>, i: usize) -> (r:
    ParserResult<(Expr, usize)>)
    requires
        i <= ts@.len(),
    ensures
        parsed_view(r) == parse_call_spec(token_views(ts@), name@, exprs_view(args@), i as int),
    decreases ts@.len() - i, 3int,
{
    let ghost tv = token_views(ts@);
    proof {
        lemma_expr_advances(tv, i as int, 0);
    }
    let n = ts.len();
    let (a, j) = parse_expr_at(ts, i, 0)?;
    let mut args = args;
    let ghost before = args@;
    let ghost av = a@;
    args.push(a);
    assert(args@.drop_last() =~= before);
    assert(exprs_view(args@) == exprs_view(before).push(av));
    if symbol_at(ts, j, ExprSymbol::RParen) {
        Ok((Expr::Call { func: name, args }, j + 1))
    } else if symbol_at(ts, j, ExprSymbol::Comma) {
        parse_call_at(ts, name, args, j + 1)
    } else {
        Err(ParserError::MissingExprRParen(token_at(ts, j)))
    }
}

/// Extend `lhs`, which ends before token `i`, by the infix operators from `i` on
/// whose left binding power is at least `min_bp`.
fn parse_infix_at(ts: &Vec<ExprToken>, lhs: Expr, i: usize, min_bp: u8) -> (r: ParserResult<
    (Expr, usize),
>)
    requires
        i <= ts@.len(),
    ensures
        parsed_view(r) == parse_infix_spec(token_views(ts@), lhs@, i as int, min_bp as int),
    decreases ts@.len() - i, 0int,
{
    let ghost tv = token_views(ts@);
    let n = ts.len();
    match infix_at(ts, i) {
        None => Ok((lhs, i)),
        Some((op, lp, rp)) => {
            if lp < min_bp {
                Ok((lhs, i))
            } else {
                proof {
                    lemma_expr_advances(tv, i + 1, rp as int);
                }
                let (rhs, j) = parse_expr_at(ts, i + 1, rp)?;
                let b = Expr::Binary { op, lhs: Box::new(lhs), rhs: Box::new(rhs) };
                parse_infix_at(ts, b, j, min_bp)
            }
        },
    }
}

/// The lexer rules of the expression language: the texts of its symbols, and no
/// delimited type.
pub open spec fn expr_rules() -> Rules {
    Rules { ops: ExprSymbol::all().map_values(|o: ExprSymbol| o.text()), dls: Seq::empty() }
}

/// The tokens of a lexed text, without their positions.
pub open spec fn lexed_tokens(ts: Seq<TokenPosView>) -> Seq<TokenView> {
    ts.map_values(|tp: TokenPosView| tp.token)
}

/// The symbol at place `i` of `ExprSymbol::all()` has that place.
proof fn lemma_table_index(i: int)
    requires
        0 <= i < 8,
    ensures
        ExprSymbol::all()[i].table_index() == i,
{
    if i == 0 {
    } else if i == 1 {
    } else if i == 2 {
    } else if i == 3 {
    } else if i == 4 {
    } else if i == 5 {
    } else if i == 6 {
    } else {
    }
}

/// The lexer that `new` builds for the expression language has its rules, every
/// symbol in order, and no delimited type.
proof fn lemma_built_expr(
    r: Lexer<ExprSymbol, NullDelimiter>,
    vs: Vec<ExprSymbol>,
    texts: Seq<String>,
    ds: Vec<NullDelimiter>,
    found: Seq<Option<(String, String)>>,
)
    requires
        r.built_from(vs, texts, ds, found),
    ensures
        r.rules() == expr_rules(),
        r.operators() == ExprSymbol::all(),
        r.delimiters().len() == 0,
{
    assert(vs@ == ExprSymbol::all());
    assert(ds@.len() == 0);
    assert(found.len() == 0);
    assert(r.rules().dls =~= expr_rules().dls);
    assert forall|i: int| 0 <= i < r.rules().ops.len() implies r.rules().ops[i]
        == expr_rules().ops[i] by {
        assert(symbol_of(vs@[i], texts[i]));
    }
    assert(r.rules().ops =~= expr_rules().ops);
}

/// A Pratt parser over the tokens of an expression.
pub struct Parser {
    tokens: Vec<ExprToken>,
    index: usize,
}

impl Parser {
    /// The next token to read is within the tokens, or just past them.
    #[verifier::type_invariant]
    spec fn within(&self) -> bool {
        self.index <= self.tokens@.len()
    }

    /// The tokens of the expression.
    pub closed spec fn tokens(&self) -> Seq<TokenView> {
        token_views(self.tokens@)
    }

    /// The index of the next token to read.
    pub closed spec fn index(&self) -> int {
        self.index as int
    }

    /// Lex the expression text into the parser's tokens: the lexer error, if lexing
    /// the text fails.
    pub fn new(expr: &str) -> (r: ParserResult<Self>)
        requires
            expr@.len() < usize::MAX,
        ensures
            match lex_all_outcome(expr_rules(), expr@) {
                LexRun::Done(ts, _) => r matches Ok(p) && p.tokens() == lexed_tokens(ts) && p.index()
                    == 0,
                LexRun::Failed(e) => r matches Err(x) && x@ == ParserErrorView::LexerError(e),
                LexRun::Unfinished => false,
            },
    {
        let mut lexer = Lexer::<ExprSymbol, NullDelimiter>::new();
        proof {
            let (vs, texts, ds, found) = choose|
                vs: Vec<ExprSymbol>,
                texts: Seq<String>,
                ds: Vec<NullDelimiter>,
                found: Seq<Option<(String, String)>>,
            | #[trigger] lexer.built_from(vs, texts, ds, found);
            lemma_built_expr(lexer, vs, texts, ds, found);
        }
        lexer.set_text(expr);
        let ghost ops = lexer.operators();
        let ghost dls = lexer.delimiters();
        let v = match lexer.lex_all() {
            Ok(v) => v,
            Err(e) => {
                return Err(ParserError::LexerError(e));
            },
        };
        let ghost ts = match lex_all_outcome(expr_rules(), expr@) {
            LexRun::Done(ts, _) => ts,
            _ => Seq::empty(),
        };
        let mut tokens: Vec<ExprToken> = Vec::new();
        let mut k: usize = 0;
        while k < v.len()
            invariant
                k <= v@.len(),
                v@.len() == ts.len(),
                ops == ExprSymbol::all(),
                dls.len() == 0,
                forall|q: int|
                    0 <= q < ts.len() ==> #[trigger] token_pos_agrees(v@[q], ts[q], ops, dls),
                token_views(tokens@) == lexed_tokens(ts).take(k as int),
            decreases v@.len() - k,
        {
            let t = copy_token(&v[k].token);
            proof {
                assert(token_pos_agrees(v@[k as int], ts[k as int], ops, dls));
                if let TokenView::Op(i) = ts[k as int].token {
                    lemma_table_index(i);
                }
                assert(token_view(t) == ts[k as int].token);
            }
            let ghost before = tokens@;
            tokens.push(t);
            assert(token_views(tokens@) =~= token_views(before).push(token_view(t)));
            assert(lexed_tokens(ts).take(k + 1) =~= lexed_tokens(ts).take(k as int).push(
                ts[k as int].token,
            ));
            k = k + 1;
        }
        assert(lexed_tokens(ts).take(k as int) =~= lexed_tokens(ts));
        Ok(Parser { tokens, index: 0 })
    }

    /// Parse a whole expression from the next token: it must be followed by the end of
    /// the text. On success the parser stands after the expression.
    pub fn parse(&mut self) -> (r: ParserResult<Expr>)
        ensures
            final(self).tokens() == old(self).tokens(),
            match parse_spec(old(self).tokens(), old(self).index()) {
                Ok((e, j)) => r matches Ok(x) && x@ == e && final(self).index() == j,
                Err(e) => r matches Err(x) && x@ == e,
            },
    {
        proof {
            use_type_invariant(&*self);
            lemma_expr_advances(self.tokens(), self.index as int, 0);
        }
        let (e, j) = parse_expr_at(&self.tokens, self.index, 0)?;
        if j < self.tokens.len() {
            match &self.tokens[j] {
                Token::Eof => {},
                t => {
                    return Err(ParserError::UnexpectedToken(copy_token(t)));
                },
            }
        }
        self.index = j;
        Ok(e)
    }
}

/// The token of a symbol.
pub open spec fn sym_tok(s: ExprSymbol) -> TokenView {
    TokenView::Op(s.table_index())
}

/// An integer operand.
pub open spec fn int_expr(n: i64) -> ExprView {
    ExprView::Int(n)
}

/// The expression `lhs op rhs`.
pub open spec fn binary(op: DefaultOperators, lhs: ExprView, rhs: ExprView) -> ExprView {
    ExprView::Binary { op, lhs: Box::new(lhs), rhs: Box::new(rhs) }
}

/// Precedence and associativity: in `x o1 y o2 z`, the second operator takes `y`
/// when its left binding power is at least the first one's right binding power, and
/// otherwise the first operator's expression becomes the second one's left operand.
pub proof fn lemma_two_operators(o1: ExprSymbol, o2: ExprSymbol, x: i64, y: i64, z: i64)
    requires
        o1.operator() is Some,
        o2.operator() is Some,
    ensures
        ({
            let ts = seq![
                TokenView::Int(x),
                sym_tok(o1),
                TokenView::Int(y),
                sym_tok(o2),
                TokenView::Int(z),
                TokenView::Eof,
            ];
            let op1 = o1.operator().unwrap();
            let op2 = o2.operator().unwrap();
            let e = if infix_binding_power(op2).unwrap().0 >= infix_binding_power(op1).unwrap().1 {
                binary(op1, int_expr(x), binary(op2, int_expr(y), int_expr(z)))
            } else {
                binary(op2, binary(op1, int_expr(x), int_expr(y)), int_expr(z))
            };
            parse_spec(ts, 0) == Ok::<(ExprView, int), ParserErrorView>((e, 5))
        }),
{
    let ts = seq![
        TokenView::Int(x),
        sym_tok(o1),
        TokenView::Int(y),
        sym_tok(o2),
        TokenView::Int(z),
        TokenView::Eof,
    ];
    let op1 = o1.operator().unwrap();
    let op2 = o2.operator().unwrap();
    let (l1, r1) = infix_binding_power(op1).unwrap();
    let (l2, r2) = infix_binding_power(op2).unwrap();
    let (ex, ey, ez) = (int_expr(x), int_expr(y), int_expr(z));
    lemma_table_index(o1.table_index());
    lemma_table_index(o2.table_index());
    assert(infix_op(tok_at(ts, 1)) == Some(op1));
    assert(infix_op(tok_at(ts, 3)) == Some(op2));
    assert(infix_op(tok_at(ts, 5)) is None);
    assert(parse_prefix_spec(ts, 4) == Ok::<(ExprView, int), ParserErrorView>((ez, 5)));
    assert(parse_infix_spec(ts, ez, 5, r2) == Ok::<(ExprView, int), ParserErrorView>((ez, 5)));
    assert(parse_expr_spec(ts, 4, r2) == Ok::<(ExprView, int), ParserErrorView>((ez, 5)));
    assert(parse_prefix_spec(ts, 2) == Ok::<(ExprView, int), ParserErrorView>((ey, 3)));
    assert(parse_prefix_spec(ts, 0) == Ok::<(ExprView, int), ParserErrorView>((ex, 1)));
    let yz = binary(op2, ey, ez);
    let xy = binary(op1, ex, ey);
    if l2 >= r1 {
        assert(parse_infix_spec(ts, yz, 5, r1) == Ok::<(ExprView, int), ParserErrorView>((yz, 5)));
        assert(parse_infix_spec(ts, ey, 3, r1) == Ok::<(ExprView, int), ParserErrorView>((yz, 5)));
        assert(parse_expr_spec(ts, 2, r1) == Ok::<(ExprView, int), ParserErrorView>((yz, 5)));
        let all = binary(op1, ex, yz);
        assert(parse_infix_spec(ts, all, 5, 0) == Ok::<(ExprView, int), ParserErrorView>((all, 5)));
        assert(parse_infix_spec(ts, ex, 1, 0) == Ok::<(ExprView, int), ParserErrorView>((all, 5)));
    } else {
        assert(parse_infix_spec(ts, ey, 3, r1) == Ok::<(ExprView, int), ParserErrorView>((ey, 3)));
        assert(parse_expr_spec(ts, 2, r1) == Ok::<(ExprView, int), ParserErrorView>((ey, 3)));
        let all = binary(op2, xy, ez);
        assert(parse_infix_spec(ts, all, 5, 0) == Ok::<(ExprView, int), ParserErrorView>((all, 5)));
        assert(parse_infix_spec(ts, xy, 3, 0) == Ok::<(ExprView, int), ParserErrorView>((all, 5)));
        assert(parse_infix_spec(ts, ex, 1, 0) == Ok::<(ExprView, int), ParserErrorView>((all, 5)));
    }
    assert(parse_expr_spec(ts, 0, 0) == parse_infix_spec(ts, ex, 1, 0));
}

/// Operators of the same precedence other than `^` associate to the left: `x o1 y o2 z`
/// is `(x o1 y) o2 z` when both are `+` or `-`, or both are `*` or `/`.
pub proof fn lemma_left_associative(o1: ExprSymbol, o2: ExprSymbol, x: i64, y: i64, z: i64)
    requires
        (o1 == ExprSymbol::Add || o1 == ExprSymbol::Sub) && (o2 == ExprSymbol::Add || o2
            == ExprSymbol::Sub) || (o1 == ExprSymbol::Mul || o1 == ExprSymbol::Div) && (o2
            == ExprSymbol::Mul || o2 == ExprSymbol::Div),
    ensures
        parse_spec(
            seq![
                TokenView::Int(x),
                sym_tok(o1),
                TokenView::Int(y),
                sym_tok(o2),
                TokenView::Int(z),
                TokenView::Eof,
            ],
            0,
        ) == Ok::<(ExprView, int), ParserErrorView>(
            (
                binary(
                    o2.operator().unwrap(),
                    binary(o1.operator().unwrap(), int_expr(x), int_expr(y)),
                    int_expr(z),
                ),
                5,
            ),
        ),
{
    lemma_two_operators(o1, o2, x, y, z);
}

/// `^` associates to the right: `x ^ y ^ z` is `x ^ (y ^ z)`.
pub proof fn lemma_pow_right_associative(x: i64, y: i64, z: i64)
    ensures
        parse_spec(
            seq![
                TokenView::Int(x),
                sym_tok(ExprSymbol::Pow),
                TokenView::Int(y),
                sym_tok(ExprSymbol::Pow),
                TokenView::Int(z),
                TokenView::Eof,
            ],
            0,
        ) == Ok::<(ExprView, int), ParserErrorView>(
            (
                binary(
                    DefaultOperators::Pow,
                    int_expr(x),
                    binary(DefaultOperators::Pow, int_expr(y), int_expr(z)),
                ),
                5,
            ),
        ),
{
    lemma_two_operators(ExprSymbol::Pow, ExprSymbol::Pow, x, y, z);
}

/// Parentheses group: `(x o1 y) o2 z` is `(x o1 y)` as the left operand of `o2`,
/// whatever the two operators.
pub proof fn lemma_grouping(o1: ExprSymbol, o2: ExprSymbol, x: i64, y: i64, z: i64)
    requires
        o1.operator() is Some,
        o2.operator() is Some,
    ensures
        parse_spec(
            seq![
                sym_tok(ExprSymbol::LParen),
                TokenView::Int(x),
                sym_tok(o1),
                TokenView::Int(y),
                sym_tok(ExprSymbol::RParen),
                sym_tok(o2),
                TokenView::Int(z),
                TokenView::Eof,
            ],
            0,
        ) == Ok::<(ExprView, int), ParserErrorView>(
            (
                binary(
                    o2.operator().unwrap(),
                    binary(o1.operator().unwrap(), int_expr(x), int_expr(y)),
                    int_expr(z),
                ),
                7,
            ),
        ),
{
    let ts = seq![
        sym_tok(ExprSymbol::LParen),
        TokenView::Int(x),
        sym_tok(o1),
        TokenView::Int(y),
        sym_tok(ExprSymbol::RParen),
        sym_tok(o2),
        TokenView::Int(z),
        TokenView::Eof,
    ];
    let op1 = o1.operator().unwrap();
    let op2 = o2.operator().unwrap();
    let (l1, r1) = infix_binding_power(op1).unwrap();
    let (l2, r2) = infix_binding_power(op2).unwrap();
    let (ex, ey, ez) = (int_expr(x), int_expr(y), int_expr(z));
    lemma_table_index(o1.table_index());
    lemma_table_index(o2.table_index());
    assert(infix_op(tok_at(ts, 2)) == Some(op1));
    assert(infix_op(tok_at(ts, 4)) is None);
    assert(infix_op(tok_at(ts, 5)) == Some(op2));
    assert(infix_op(tok_at(ts, 7)) is None);
    let xy = binary(op1, ex, ey);
    let all = binary(op2, xy, ez);
    assert(parse_infix_spec(ts, ey, 4, r1) == Ok::<(ExprView, int), ParserErrorView>((ey, 4)));
    assert(parse_expr_spec(ts, 3, r1) == Ok::<(ExprView, int), ParserErrorView>((ey, 4)));
    assert(parse_infix_spec(ts, xy, 4, 0) == Ok::<(ExprView, int), ParserErrorView>((xy, 4)));
    assert(parse_infix_spec(ts, ex, 2, 0) == Ok::<(ExprView, int), ParserErrorView>((xy, 4)));
    assert(parse_expr_spec(ts, 1, 0) == Ok::<(ExprView, int), ParserErrorView>((xy, 4)));
    assert(parse_prefix_spec(ts, 0) == Ok::<(ExprView, int), ParserErrorView>((xy, 5)));
    assert(parse_infix_spec(ts, ez, 7, r2) == Ok::<(ExprView, int), ParserErrorView>((ez, 7)));
    assert(parse_expr_spec(ts, 6, r2) == Ok::<(ExprView, int), ParserErrorView>((ez, 7)));
    assert(parse_infix_spec(ts, all, 7, 0) == Ok::<(ExprView, int), ParserErrorView>((all, 7)));
    assert(parse_infix_spec(ts, xy, 5, 0) == Ok::<(ExprView, int), ParserErrorView>((all, 7)));
    assert(parse_expr_spec(ts, 0, 0) == Ok::<(ExprView, int), ParserErrorView>((all, 7)));
}

/// A name followed by a parenthesis is a call: `f(x, y)` is the call of `f` with the
/// arguments `x` and `y`, in order.
pub proof fn lemma_call(f: Seq<char>, x: i64, y: i64)
    ensures
        parse_spec(
            seq![
                TokenView::Ident(f),
                sym_tok(ExprSymbol::LParen),
                TokenView::Int(x),
                sym_tok(ExprSymbol::Comma),
                TokenView::Int(y),
                sym_tok(ExprSymbol::RParen),
                TokenView::Eof,
            ],
            0,
        ) == Ok::<(ExprView, int), ParserErrorView>(
            (ExprView::Call { func: f, args: seq![int_expr(x), int_expr(y)] }, 6),
        ),
{
    let ts = seq![
        TokenView::Ident(f),
        sym_tok(ExprSymbol::LParen),
        TokenView::Int(x),
        sym_tok(ExprSymbol::Comma),
        TokenView::Int(y),
        sym_tok(ExprSymbol::RParen),
        TokenView::Eof,
    ];
    let (ex, ey) = (int_expr(x), int_expr(y));
    assert(infix_op(tok_at(ts, 3)) is None);
    assert(infix_op(tok_at(ts, 5)) is None);
    assert(infix_op(tok_at(ts, 6)) is None);
    let call = ExprView::Call { func: f, args: seq![ex, ey] };
    assert(parse_expr_spec(ts, 2, 0) == Ok::<(ExprView, int), ParserErrorView>((ex, 3)));
    assert(parse_expr_spec(ts, 4, 0) == Ok::<(ExprView, int), ParserErrorView>((ey, 5)));
    assert(Seq::<ExprView>::empty().push(ex).push(ey) =~= seq![ex, ey]);
    assert(parse_call_spec(ts, f, seq![ex], 4) == Ok::<(ExprView, int), ParserErrorView>(
        (call, 6),
    ));
    assert(Seq::<ExprView>::empty().push(ex) =~= seq![ex]);
    assert(parse_call_spec(ts, f, Seq::empty(), 2) == Ok::<(ExprView, int), ParserErrorView>(
        (call, 6),
    ));
    assert(parse_prefix_spec(ts, 0) == Ok::<(ExprView, int), ParserErrorView>((call, 6)));
    assert(parse_expr_spec(ts, 0, 0) == Ok::<(ExprView, int), ParserErrorView>((call, 6)));
}

/// The unary minus takes its operand with binding power 5: in `-x o y`, only `^`
/// binds tighter, so `-x ^ y` is `-(x ^ y)` and `-x o y` is `(-x) o y` for the
/// other operators.
pub proof fn lemma_unary_minus(o: ExprSymbol, x: i64, y: i64)
    requires
        o.operator() is Some,
    ensures
        ({
            let op = o.operator().unwrap();
            let neg = |e: ExprView| ExprView::Unary { op: DefaultOperators::Sub, operand: Box::new(e) };
            let e = if o == ExprSymbol::Pow {
                neg(binary(op, int_expr(x), int_expr(y)))
            } else {
                binary(op, neg(int_expr(x)), int_expr(y))
            };
            parse_spec(
                seq![
                    sym_tok(ExprSymbol::Sub),
                    TokenView::Int(x),
                    sym_tok(o),
                    TokenView::Int(y),
                    TokenView::Eof,
                ],
                0,
            ) == Ok::<(ExprView, int), ParserErrorView>((e, 4))
        }),
{
    let ts = seq![
        sym_tok(ExprSymbol::Sub),
        TokenView::Int(x),
        sym_tok(o),
        TokenView::Int(y),
        TokenView::Eof,
    ];
    let op = o.operator().unwrap();
    let (l, r) = infix_binding_power(op).unwrap();
    let (ex, ey) = (int_expr(x), int_expr(y));
    lemma_table_index(o.table_index());
    assert(infix_op(tok_at(ts, 2)) == Some(op));
    assert(infix_op(tok_at(ts, 4)) is None);
    assert(parse_infix_spec(ts, ey, 4, r) == Ok::<(ExprView, int), ParserErrorView>((ey, 4)));
    assert(parse_expr_spec(ts, 3, r) == Ok::<(ExprView, int), ParserErrorView>((ey, 4)));
    if o == ExprSymbol::Pow {
        let b = binary(op, ex, ey);
        let u = ExprView::Unary { op: DefaultOperators::Sub, operand: Box::new(b) };
        assert(parse_infix_spec(ts, b, 4, 5) == Ok::<(ExprView, int), ParserErrorView>((b, 4)));
        assert(parse_infix_spec(ts, ex, 2, 5) == Ok::<(ExprView, int), ParserErrorView>((b, 4)));
        assert(parse_expr_spec(ts, 1, 5) == Ok::<(ExprView, int), ParserErrorView>((b, 4)));
        assert(parse_prefix_spec(ts, 0) == Ok::<(ExprView, int), ParserErrorView>((u, 4)));
        assert(parse_infix_spec(ts, u, 4, 0) == Ok::<(ExprView, int), ParserErrorView>((u, 4)));
        assert(parse_expr_spec(ts, 0, 0) == Ok::<(ExprView, int), ParserErrorView>((u, 4)));
    } else {
        let u = ExprView::Unary { op: DefaultOperators::Sub, operand: Box::new(ex) };
        let b = binary(op, u, ey);
        assert(parse_infix_spec(ts, ex, 2, 5) == Ok::<(ExprView, int), ParserErrorView>((ex, 2)));
        assert(parse_expr_spec(ts, 1, 5) == Ok::<(ExprView, int), ParserErrorView>((ex, 2)));
        assert(parse_prefix_spec(ts, 0) == Ok::<(ExprView, int), ParserErrorView>((u, 2)));
        assert(parse_infix_spec(ts, b, 4, 0) == Ok::<(ExprView, int), ParserErrorView>((b, 4)));
        assert(parse_infix_spec(ts, u, 2, 0) == Ok::<(ExprView, int), ParserErrorView>((b, 4)));
        assert(parse_expr_spec(ts, 0, 0) == Ok::<(ExprView, int), ParserErrorView>((b, 4)));
    }
}


/// The tokens of the call `f(a1, ..., an)` of integer arguments, then the end of the
/// text.
pub open spec fn call_tokens(f: Seq<char>, args: Seq<i64>) -> Seq<TokenView> {
    Seq::new(
        (2 * args.len() + 3) as nat,
        |k: int|
            if k == 0 {
                TokenView::Ident(f)
            } else if k == 1 {
                sym_tok(ExprSymbol::LParen)
            } else if k == 2 * args.len() + 1 {
                sym_tok(ExprSymbol::RParen)
            } else if k == 2 * args.len() + 2 {
                TokenView::Eof
            } else if k % 2 == 0 {
                TokenView::Int(args[(k - 2) / 2])
            } else {
                sym_tok(ExprSymbol::Comma)
            },
    )
}

/// Integer operands.
pub open spec fn int_exprs(args: Seq<i64>) -> Seq<ExprView> {
    args.map_values(|n: i64| int_expr(n))
}

proof fn lemma_call_args(f: Seq<char>, args: Seq<i64>, m: int)
    requires
        0 <= m < args.len(),
    ensures
        parse_call_spec(call_tokens(f, args), f, int_exprs(args.take(m)), 2 + 2 * m) == Ok::<
            (ExprView, int),
            ParserErrorView,
        >((ExprView::Call { func: f, args: int_exprs(args) }, 2 * args.len() + 2int)),
    decreases args.len() - m,
{
    let ts = call_tokens(f, args);
    let n = args.len() as int;
    let i = 2 + 2 * m;
    assert((i - 2) / 2 == m);
    assert(tok_at(ts, i) == TokenView::Int(args[m]));
    let a = int_expr(args[m]);
    if m == n - 1 {
        assert(tok_at(ts, i + 1) == sym_tok(ExprSymbol::RParen));
    } else {
        assert(tok_at(ts, i + 1) == sym_tok(ExprSymbol::Comma));
    }
    assert(infix_op(tok_at(ts, i + 1)) is None);
    assert(parse_prefix_spec(ts, i) == Ok::<(ExprView, int), ParserErrorView>((a, i + 1)));
    assert(parse_infix_spec(ts, a, i + 1, 0) == Ok::<(ExprView, int), ParserErrorView>(
        (a, i + 1),
    ));
    assert(parse_expr_spec(ts, i, 0) == Ok::<(ExprView, int), ParserErrorView>((a, i + 1)));
    assert(int_exprs(args.take(m)).push(a) =~= int_exprs(args.take(m + 1)));
    if m == n - 1 {
        assert(args.take(m + 1) =~= args);
    } else {
        lemma_call_args(f, args, m + 1);
        assert(2 + 2 * (m + 1) == i + 2);
    }
}

/// A call takes any number of arguments: `f(a1, ..., an)` with `n >= 1` is the call of
/// `f` with the arguments `a1, ..., an`, in order.
pub proof fn lemma_call_any_arity(f: Seq<char>, args: Seq<i64>)
    requires
        args.len() >= 1,
    ensures
        parse_spec(call_tokens(f, args), 0) == Ok::<(ExprView, int), ParserErrorView>(
            (ExprView::Call { func: f, args: int_exprs(args) }, 2 * args.len() + 2int),
        ),
{
    let ts = call_tokens(f, args);
    let n = args.len() as int;
    let call = ExprView::Call { func: f, args: int_exprs(args) };
    lemma_call_args(f, args, 0);
    assert(int_exprs(args.take(0)) =~= Seq::<ExprView>::empty());
    assert(tok_at(ts, 1) == sym_tok(ExprSymbol::LParen));
    assert(parse_prefix_spec(ts, 0) == Ok::<(ExprView, int), ParserErrorView>((call, 2 * n + 2)));
    assert(tok_at(ts, 2 * n + 2) == TokenView::Eof);
    assert(infix_op(tok_at(ts, 2 * n + 2)) is None);
    assert(parse_expr_spec(ts, 0, 0) == Ok::<(ExprView, int), ParserErrorView>(
        (call, 2 * n + 2),
    ));
}


/// The tokens `x o1 y o2 z o3 w`, then the end of the text.
pub open spec fn three_op_tokens(
    o1: ExprSymbol,
    o2: ExprSymbol,
    o3: ExprSymbol,
    x: i64,
    y: i64,
    z: i64,
    w: i64,
) -> Seq<TokenView> {
    seq![
        TokenView::Int(x),
        sym_tok(o1),
        TokenView::Int(y),
        sym_tok(o2),
        TokenView::Int(z),
        sym_tok(o3),
        TokenView::Int(w),
        TokenView::Eof,
    ]
}

/// Whether an operator's left binding power reaches `bp`: whether it takes the operand
/// before it away from an operator whose right binding power is `bp`.
pub open spec fn takes_over(o: ExprSymbol, bp: int) -> bool {
    infix_binding_power(o.operator().unwrap()).unwrap().0 >= bp
}

/// The right binding power of an operator symbol.
pub open spec fn right_power(o: ExprSymbol) -> int {
    infix_binding_power(o.operator().unwrap()).unwrap().1
}

proof fn lemma_last_operand(ts: Seq<TokenView>, w: i64, bp: int)
    requires
        ts.len() == 8,
        ts[6] == TokenView::Int(w),
        ts[7] == TokenView::Eof,
    ensures
        parse_expr_spec(ts, 6, bp) == Ok::<(ExprView, int), ParserErrorView>((int_expr(w), 7)),
{
    assert(infix_op(tok_at(ts, 7)) is None);
    assert(parse_infix_spec(ts, int_expr(w), 7, bp) == Ok::<(ExprView, int), ParserErrorView>(
        (int_expr(w), 7),
    ));
}

/// Precedence and associativity with three operators: in `x o1 y o2 z o3 w`, each
/// operator takes the operand before it when its left binding power reaches the right
/// binding power of the operator that holds that operand; an operator that does not
/// reach it is left to an enclosing level. So `x - y * z + w` is `(x - (y * z)) + w`,
/// and `x ^ y ^ z ^ w` is `x ^ (y ^ (z ^ w))`.
pub proof fn lemma_three_operators(
    o1: ExprSymbol,
    o2: ExprSymbol,
    o3: ExprSymbol,
    x: i64,
    y: i64,
    z: i64,
    w: i64,
)
    requires
        o1.operator() is Some,
        o2.operator() is Some,
        o3.operator() is Some,
    ensures
        ({
            let (op1, op2, op3) = (
                o1.operator().unwrap(),
                o2.operator().unwrap(),
                o3.operator().unwrap(),
            );
            let (ex, ey, ez, ew) = (int_expr(x), int_expr(y), int_expr(z), int_expr(w));
            let e = if !takes_over(o2, right_power(o1)) {
                if !takes_over(o3, right_power(o2)) {
                    binary(op3, binary(op2, binary(op1, ex, ey), ez), ew)
                } else {
                    binary(op2, binary(op1, ex, ey), binary(op3, ez, ew))
                }
            } else if !takes_over(o3, right_power(o2)) {
                if !takes_over(o3, right_power(o1)) {
                    binary(op3, binary(op1, ex, binary(op2, ey, ez)), ew)
                } else {
                    binary(op1, ex, binary(op3, binary(op2, ey, ez), ew))
                }
            } else {
                binary(op1, ex, binary(op2, ey, binary(op3, ez, ew)))
            };
            parse_spec(three_op_tokens(o1, o2, o3, x, y, z, w), 0) == Ok::<
                (ExprView, int),
                ParserErrorView,
            >((e, 7))
        }),
{
    let ts = three_op_tokens(o1, o2, o3, x, y, z, w);
    let (op1, op2, op3) = (o1.operator().unwrap(), o2.operator().unwrap(), o3.operator().unwrap());
    let (l1, r1) = infix_binding_power(op1).unwrap();
    let (l2, r2) = infix_binding_power(op2).unwrap();
    let (l3, r3) = infix_binding_power(op3).unwrap();
    let (ex, ey, ez, ew) = (int_expr(x), int_expr(y), int_expr(z), int_expr(w));
    lemma_table_index(o1.table_index());
    lemma_table_index(o2.table_index());
    lemma_table_index(o3.table_index());
    assert(infix_op(tok_at(ts, 1)) == Some(op1));
    assert(infix_op(tok_at(ts, 3)) == Some(op2));
    assert(infix_op(tok_at(ts, 5)) == Some(op3));
    assert(infix_op(tok_at(ts, 7)) is None);
    lemma_last_operand(ts, w, r3);
    lemma_last_operand(ts, w, 0);
    let zw = binary(op3, ez, ew);
    // the operand from z, for a right binding power `r2` of the operator before it
    assert(parse_infix_spec(ts, zw, 7, r2) == Ok::<(ExprView, int), ParserErrorView>((zw, 7)));
    if l3 < r2 {
        assert(parse_infix_spec(ts, ez, 5, r2) == Ok::<(ExprView, int), ParserErrorView>((ez, 5)));
        assert(parse_expr_spec(ts, 4, r2) == Ok::<(ExprView, int), ParserErrorView>((ez, 5)));
    } else {
        assert(parse_infix_spec(ts, ez, 5, r2) == Ok::<(ExprView, int), ParserErrorView>((zw, 7)));
        assert(parse_expr_spec(ts, 4, r2) == Ok::<(ExprView, int), ParserErrorView>((zw, 7)));
    }
    if l2 < r1 {
        assert(parse_infix_spec(ts, ey, 3, r1) == Ok::<(ExprView, int), ParserErrorView>((ey, 3)));
        assert(parse_expr_spec(ts, 2, r1) == Ok::<(ExprView, int), ParserErrorView>((ey, 3)));
        let xy = binary(op1, ex, ey);
        if l3 < r2 {
            let b2 = binary(op2, xy, ez);
            let b3 = binary(op3, b2, ew);
            assert(parse_infix_spec(ts, b3, 7, 0) == Ok::<(ExprView, int), ParserErrorView>((b3, 7)));
            assert(parse_infix_spec(ts, b2, 5, 0) == Ok::<(ExprView, int), ParserErrorView>((b3, 7)));
            assert(parse_infix_spec(ts, xy, 3, 0) == Ok::<(ExprView, int), ParserErrorView>((b3, 7)));
            assert(parse_infix_spec(ts, ex, 1, 0) == Ok::<(ExprView, int), ParserErrorView>((b3, 7)));
        } else {
            let b2 = binary(op2, xy, zw);
            assert(parse_infix_spec(ts, b2, 7, 0) == Ok::<(ExprView, int), ParserErrorView>((b2, 7)));
            assert(parse_infix_spec(ts, xy, 3, 0) == Ok::<(ExprView, int), ParserErrorView>((b2, 7)));
            assert(parse_infix_spec(ts, ex, 1, 0) == Ok::<(ExprView, int), ParserErrorView>((b2, 7)));
        }
    } else if l3 < r2 {
        let yz = binary(op2, ey, ez);
        if l3 < r1 {
            assert(parse_infix_spec(ts, yz, 5, r1) == Ok::<(ExprView, int), ParserErrorView>((yz, 5)));
            assert(parse_infix_spec(ts, ey, 3, r1) == Ok::<(ExprView, int), ParserErrorView>((yz, 5)));
            assert(parse_expr_spec(ts, 2, r1) == Ok::<(ExprView, int), ParserErrorView>((yz, 5)));
            let b1 = binary(op1, ex, yz);
            let b3 = binary(op3, b1, ew);
            assert(parse_infix_spec(ts, b3, 7, 0) == Ok::<(ExprView, int), ParserErrorView>((b3, 7)));
            assert(parse_infix_spec(ts, b1, 5, 0) == Ok::<(ExprView, int), ParserErrorView>((b3, 7)));
            assert(parse_infix_spec(ts, ex, 1, 0) == Ok::<(ExprView, int), ParserErrorView>((b3, 7)));
        } else {
            let yzw = binary(op3, yz, ew);
            assert(parse_infix_spec(ts, yzw, 7, r1) == Ok::<(ExprView, int), ParserErrorView>((yzw, 7)));
            assert(parse_infix_spec(ts, yz, 5, r1) == Ok::<(ExprView, int), ParserErrorView>((yzw, 7)));
            assert(parse_infix_spec(ts, ey, 3, r1) == Ok::<(ExprView, int), ParserErrorView>((yzw, 7)));
            assert(parse_expr_spec(ts, 2, r1) == Ok::<(ExprView, int), ParserErrorView>((yzw, 7)));
            let b1 = binary(op1, ex, yzw);
            assert(parse_infix_spec(ts, b1, 7, 0) == Ok::<(ExprView, int), ParserErrorView>((b1, 7)));
            assert(parse_infix_spec(ts, ex, 1, 0) == Ok::<(ExprView, int), ParserErrorView>((b1, 7)));
        }
    } else {
        let yzw = binary(op2, ey, zw);
        assert(parse_infix_spec(ts, yzw, 7, r1) == Ok::<(ExprView, int), ParserErrorView>((yzw, 7)));
        assert(parse_infix_spec(ts, ey, 3, r1) == Ok::<(ExprView, int), ParserErrorView>((yzw, 7)));
        assert(parse_expr_spec(ts, 2, r1) == Ok::<(ExprView, int), ParserErrorView>((yzw, 7)));
        let b1 = binary(op1, ex, yzw);
        assert(parse_infix_spec(ts, b1, 7, 0) == Ok::<(ExprView, int), ParserErrorView>((b1, 7)));
        assert(parse_infix_spec(ts, ex, 1, 0) == Ok::<(ExprView, int), ParserErrorView>((b1, 7)));
    }
    assert(parse_expr_spec(ts, 0, 0) == parse_infix_spec(ts, ex, 1, 0));
}

/// `x - y * z + w` is `(x - (y * z)) + w`, and likewise for every operator of the
/// level of `+` and `-` around one of the level of `*` and `/`: the product is taken
/// first, and the two outer operators associate to the left.
pub proof fn lemma_sum_around_product(
    o1: ExprSymbol,
    o2: ExprSymbol,
    o3: ExprSymbol,
    x: i64,
    y: i64,
    z: i64,
    w: i64,
)
    requires
        o1 == ExprSymbol::Add || o1 == ExprSymbol::Sub,
        o2 == ExprSymbol::Mul || o2 == ExprSymbol::Div,
        o3 == ExprSymbol::Add || o3 == ExprSymbol::Sub,
    ensures
        parse_spec(three_op_tokens(o1, o2, o3, x, y, z, w), 0) == Ok::<
            (ExprView, int),
            ParserErrorView,
        >(
            (
                binary(
                    o3.operator().unwrap(),
                    binary(
                        o1.operator().unwrap(),
                        int_expr(x),
                        binary(o2.operator().unwrap(), int_expr(y), int_expr(z)),
                    ),
                    int_expr(w),
                ),
                7,
            ),
        ),
{
    lemma_three_operators(o1, o2, o3, x, y, z, w);
}


/// The tokens `a0 o1 a1 ... on an` of integer operands joined by operators, then the
/// end of the text (`ops` has one element fewer than `args`).
pub open spec fn chain_tokens(ops: Seq<ExprSymbol>, args: Seq<i64>) -> Seq<TokenView> {
    Seq::new(
        (2 * args.len()) as nat,
        |k: int|
            if k == 2 * args.len() - 1 {
                TokenView::Eof
            } else if k % 2 == 0 {
                TokenView::Int(args[k / 2])
            } else {
                sym_tok(ops[(k - 1) / 2])
            },
    )
}

/// The operands `a0 .. ak` joined from the left: `((a0 o1 a1) o2 a2) .. ok ak`.
pub open spec fn left_fold(ops: Seq<ExprSymbol>, args: Seq<i64>, k: int) -> ExprView
    decreases k,
{
    if k <= 0 {
        int_expr(args[0])
    } else {
        binary(ops[k - 1].operator().unwrap(), left_fold(ops, args, k - 1), int_expr(args[k]))
    }
}

/// The operands `ak .. an` joined by `^` from the right: `ak ^ (.. ^ (a(n-1) ^ an))`.
pub open spec fn pow_fold(args: Seq<i64>, k: int) -> ExprView
    decreases args.len() - k,
{
    if k >= args.len() - 1 {
        int_expr(args[k])
    } else {
        binary(DefaultOperators::Pow, int_expr(args[k]), pow_fold(args, k + 1))
    }
}

/// The operators are all of the level of `+` and `-`, or all of that of `*` and `/`.
pub open spec fn one_left_level(ops: Seq<ExprSymbol>) -> bool {
    (forall|k: int| 0 <= k < ops.len() ==> #[trigger] ops[k] == ExprSymbol::Add || ops[k]
        == ExprSymbol::Sub) || (forall|k: int| 0 <= k < ops.len() ==> #[trigger] ops[k]
        == ExprSymbol::Mul || ops[k] == ExprSymbol::Div)
}

proof fn lemma_chain_token(ops: Seq<ExprSymbol>, args: Seq<i64>, k: int)
    requires
        args.len() == ops.len() + 1,
        0 <= k < args.len(),
    ensures
        tok_at(chain_tokens(ops, args), 2 * k) == TokenView::Int(args[k]),
        k + 1 < args.len() ==> tok_at(chain_tokens(ops, args), 2 * k + 1) == sym_tok(ops[k]),
        k + 1 == args.len() ==> tok_at(chain_tokens(ops, args), 2 * k + 1) == TokenView::Eof,
{
    assert((2 * k) / 2 == k);
    assert((2 * k + 1 - 1) / 2 == k);
    assert((2 * k) % 2 == 0);
    assert((2 * k + 1) % 2 == 1);
}

proof fn lemma_left_chain_from(ops: Seq<ExprSymbol>, args: Seq<i64>, k: int)
    requires
        args.len() == ops.len() + 1,
        one_left_level(ops),
        0 <= k < args.len(),
    ensures
        parse_infix_spec(chain_tokens(ops, args), left_fold(ops, args, k), 2 * k + 1, 0) == Ok::<
            (ExprView, int),
            ParserErrorView,
        >((left_fold(ops, args, args.len() - 1), 2 * args.len() - 1)),
    decreases args.len() - k,
{
    let ts = chain_tokens(ops, args);
    let n = args.len() as int;
    lemma_chain_token(ops, args, k);
    if k + 1 == n {
        assert(infix_op(tok_at(ts, 2 * k + 1)) is None);
    } else {
        let o = ops[k];
        lemma_table_index(o.table_index());
        assert(infix_op(tok_at(ts, 2 * k + 1)) == o.operator());
        let (l, r) = infix_binding_power(o.operator().unwrap()).unwrap();
        lemma_chain_token(ops, args, k + 1);
        let a = int_expr(args[k + 1]);
        if k + 2 < n {
            let o2 = ops[k + 1];
            lemma_table_index(o2.table_index());
            assert(infix_op(tok_at(ts, 2 * k + 3)) == o2.operator());
            assert(infix_binding_power(o2.operator().unwrap()).unwrap().0 < r);
        } else {
            assert(infix_op(tok_at(ts, 2 * k + 3)) is None);
        }
        assert(parse_infix_spec(ts, a, 2 * k + 3, r) == Ok::<(ExprView, int), ParserErrorView>(
            (a, 2 * k + 3),
        ));
        assert(parse_expr_spec(ts, 2 * k + 2, r) == Ok::<(ExprView, int), ParserErrorView>(
            (a, 2 * k + 3),
        ));
        lemma_left_chain_from(ops, args, k + 1);
        assert(2 * (k + 1) + 1 == 2 * k + 3);
    }
}

/// Any number of operators of one level other than `^` associate to the left:
/// `a0 o1 a1 .. on an` is `((a0 o1 a1) o2 a2) .. on an` when the operators are all
/// `+` or `-`, or all `*` or `/`.
pub proof fn lemma_left_chain(ops: Seq<ExprSymbol>, args: Seq<i64>)
    requires
        args.len() == ops.len() + 1,
        one_left_level(ops),
    ensures
        parse_spec(chain_tokens(ops, args), 0) == Ok::<(ExprView, int), ParserErrorView>(
            (left_fold(ops, args, args.len() - 1), 2 * args.len() - 1),
        ),
{
    let ts = chain_tokens(ops, args);
    lemma_chain_token(ops, args, 0);
    lemma_left_chain_from(ops, args, 0);
    lemma_chain_token(ops, args, args.len() - 1);
    assert(parse_expr_spec(ts, 0, 0) == parse_infix_spec(ts, left_fold(ops, args, 0), 1, 0));
}

proof fn lemma_pow_chain_from(ops: Seq<ExprSymbol>, args: Seq<i64>, k: int, bp: int)
    requires
        args.len() == ops.len() + 1,
        forall|q: int| 0 <= q < ops.len() ==> #[trigger] ops[q] == ExprSymbol::Pow,
        0 <= k < args.len(),
        bp <= 8,
    ensures
        parse_expr_spec(chain_tokens(ops, args), 2 * k, bp) == Ok::<(ExprView, int), ParserErrorView>(
            (pow_fold(args, k), 2 * args.len() - 1),
        ),
    decreases args.len() - k,
{
    let ts = chain_tokens(ops, args);
    let n = args.len() as int;
    lemma_chain_token(ops, args, k);
    let a = int_expr(args[k]);
    if k + 1 == n {
        assert(infix_op(tok_at(ts, 2 * k + 1)) is None);
        assert(parse_infix_spec(ts, a, 2 * k + 1, bp) == Ok::<(ExprView, int), ParserErrorView>(
            (a, 2 * k + 1),
        ));
    } else {
        assert(ops[k] == ExprSymbol::Pow);
        assert(infix_op(tok_at(ts, 2 * k + 1)) == Some(DefaultOperators::Pow));
        lemma_pow_chain_from(ops, args, k + 1, 7);
        assert(2 * (k + 1) == 2 * k + 2);
        lemma_chain_token(ops, args, n - 1);
        assert(infix_op(tok_at(ts, 2 * n - 1)) is None);
        let b = pow_fold(args, k);
        assert(parse_infix_spec(ts, b, 2 * n - 1, bp) == Ok::<(ExprView, int), ParserErrorView>(
            (b, 2 * n - 1),
        ));
        assert(parse_infix_spec(ts, a, 2 * k + 1, bp) == Ok::<(ExprView, int), ParserErrorView>(
            (b, 2 * n - 1),
        ));
    }
}

/// Any number of `^` associate to the right: `a0 ^ a1 ^ .. ^ an` is
/// `a0 ^ (a1 ^ (.. ^ an))`.
pub proof fn lemma_pow_chain(ops: Seq<ExprSymbol>, args: Seq<i64>)
    requires
        args.len() == ops.len() + 1,
        forall|q: int| 0 <= q < ops.len() ==> #[trigger] ops[q] == ExprSymbol::Pow,
    ensures
        parse_spec(chain_tokens(ops, args), 0) == Ok::<(ExprView, int), ParserErrorView>(
            (pow_fold(args, 0), 2 * args.len() - 1),
        ),
{
    lemma_pow_chain_from(ops, args, 0, 0);
    lemma_chain_token(ops, args, args.len() - 1);
}


/// The errors of the parser, for any operands and operators: a token after a whole
/// expression is unexpected (`x y`); a missing operand is an unexpected prefix token,
/// such as the end of the text in `x o` or a closing parenthesis in `) x`; and a
/// parenthesis left open, around an operand (`(x`) or around arguments (`f(x y)`), is a
/// missing closing parenthesis with the token found in its place.
pub proof fn lemma_parse_errors(o: ExprSymbol, f: Seq<char>, x: i64, y: i64)
    requires
        o.operator() is Some,
    ensures
        parse_spec(seq![TokenView::Int(x), TokenView::Int(y), TokenView::Eof], 0) == Err::<
            (ExprView, int),
            ParserErrorView,
        >(ParserErrorView::UnexpectedToken(TokenView::Int(y))),
        parse_spec(seq![TokenView::Int(x), sym_tok(o), TokenView::Eof], 0) == Err::<
            (ExprView, int),
            ParserErrorView,
        >(ParserErrorView::UnexpectedPrefixToken(TokenView::Eof)),
        parse_spec(seq![sym_tok(ExprSymbol::RParen), TokenView::Int(x), TokenView::Eof], 0)
            == Err::<(ExprView, int), ParserErrorView>(
            ParserErrorView::UnexpectedPrefixToken(sym_tok(ExprSymbol::RParen)),
        ),
        parse_spec(seq![sym_tok(ExprSymbol::LParen), TokenView::Int(x), TokenView::Eof], 0)
            == Err::<(ExprView, int), ParserErrorView>(
            ParserErrorView::MissingExprRParen(TokenView::Eof),
        ),
        parse_spec(
            seq![
                TokenView::Ident(f),
                sym_tok(ExprSymbol::LParen),
                TokenView::Int(x),
                TokenView::Int(y),
                sym_tok(ExprSymbol::RParen),
                TokenView::Eof,
            ],
            0,
        ) == Err::<(ExprView, int), ParserErrorView>(
            ParserErrorView::MissingExprRParen(TokenView::Int(y)),
        ),
{
    let ex = int_expr(x);
    let t1 = seq![TokenView::Int(x), TokenView::Int(y), TokenView::Eof];
    assert(infix_op(tok_at(t1, 1)) is None);
    assert(parse_expr_spec(t1, 0, 0) == Ok::<(ExprView, int), ParserErrorView>((ex, 1)));
    let t2 = seq![TokenView::Int(x), sym_tok(o), TokenView::Eof];
    lemma_table_index(o.table_index());
    assert(infix_op(tok_at(t2, 1)) == o.operator());
    assert(parse_prefix_spec(t2, 2) == Err::<(ExprView, int), ParserErrorView>(
        ParserErrorView::UnexpectedPrefixToken(TokenView::Eof),
    ));
    let r = infix_binding_power(o.operator().unwrap()).unwrap().1;
    assert(parse_expr_spec(t2, 2, r) == Err::<(ExprView, int), ParserErrorView>(
        ParserErrorView::UnexpectedPrefixToken(TokenView::Eof),
    ));
    assert(parse_infix_spec(t2, ex, 1, 0) == Err::<(ExprView, int), ParserErrorView>(
        ParserErrorView::UnexpectedPrefixToken(TokenView::Eof),
    ));
    let t3 = seq![sym_tok(ExprSymbol::RParen), TokenView::Int(x), TokenView::Eof];
    assert(parse_prefix_spec(t3, 0) == Err::<(ExprView, int), ParserErrorView>(
        ParserErrorView::UnexpectedPrefixToken(sym_tok(ExprSymbol::RParen)),
    ));
    let t4 = seq![sym_tok(ExprSymbol::LParen), TokenView::Int(x), TokenView::Eof];
    assert(infix_op(tok_at(t4, 2)) is None);
    assert(parse_expr_spec(t4, 1, 0) == Ok::<(ExprView, int), ParserErrorView>((ex, 2)));
    assert(parse_prefix_spec(t4, 0) == Err::<(ExprView, int), ParserErrorView>(
        ParserErrorView::MissingExprRParen(TokenView::Eof),
    ));
    let t5 = seq![
        TokenView::Ident(f),
        sym_tok(ExprSymbol::LParen),
        TokenView::Int(x),
        TokenView::Int(y),
        sym_tok(ExprSymbol::RParen),
        TokenView::Eof,
    ];
    assert(infix_op(tok_at(t5, 3)) is None);
    assert(parse_expr_spec(t5, 2, 0) == Ok::<(ExprView, int), ParserErrorView>((ex, 3)));
    assert(parse_call_spec(t5, f, Seq::empty(), 2) == Err::<(ExprView, int), ParserErrorView>(
        ParserErrorView::MissingExprRParen(TokenView::Int(y)),
    ));
    assert(parse_prefix_spec(t5, 0) == Err::<(ExprView, int), ParserErrorView>(
        ParserErrorView::MissingExprRParen(TokenView::Int(y)),
    ));
}

} // verus!
