use pratt_parser::{
    DefaultOperators, Expr, ExprSymbol, LexerError, Parser, ParserError, TextPos, Token,
};

fn parse(text: &str) -> Result<Expr, ParserError> {
    Parser::new(text)?.parse()
}

fn num(n: i64) -> Expr {
    Expr::Int(n)
}

fn var(name: &str) -> Expr {
    Expr::Var(name.into())
}

fn bin(op: DefaultOperators, lhs: Expr, rhs: Expr) -> Expr {
    Expr::Binary { op, lhs: Box::new(lhs), rhs: Box::new(rhs) }
}

fn neg(e: Expr) -> Expr {
    Expr::Unary { op: DefaultOperators::Sub, operand: Box::new(e) }
}

use DefaultOperators::{Add, Div, Mul, Pow, Sub};

#[test]
fn product_binds_tighter_than_sum() {
    assert_eq!(parse("1 + 2 * 3"), Ok(bin(Add, num(1), bin(Mul, num(2), num(3)))));
}

#[test]
fn power_binds_tightest() {
    assert_eq!(
        parse("1 + 2 * Z^2"),
        Ok(bin(Add, num(1), bin(Mul, num(2), bin(Pow, var("Z"), num(2)))))
    );
}

#[test]
fn parentheses_group() {
    assert_eq!(parse("(1 + 2) * 3"), Ok(bin(Mul, bin(Add, num(1), num(2)), num(3))));
}

#[test]
fn sums_and_products_associate_to_the_left() {
    assert_eq!(parse("1 - 2 + 3"), Ok(bin(Add, bin(Sub, num(1), num(2)), num(3))));
    assert_eq!(parse("8 / 4 * 2"), Ok(bin(Mul, bin(Div, num(8), num(4)), num(2))));
}

#[test]
fn power_associates_to_the_right() {
    assert_eq!(parse("2 ^ 3 ^ 2"), Ok(bin(Pow, num(2), bin(Pow, num(3), num(2)))));
}

#[test]
fn unary_minus() {
    assert_eq!(parse("-2 ^ 2"), Ok(neg(bin(Pow, num(2), num(2)))));
    assert_eq!(parse("-2 * 3"), Ok(bin(Mul, neg(num(2)), num(3))));
    assert_eq!(parse("1 - -x"), Ok(bin(Sub, num(1), neg(var("x")))));
}

#[test]
fn variables_and_calls() {
    assert_eq!(parse("num_1"), Ok(var("num_1")));
    assert_eq!(parse("abs(x)"), Ok(Expr::Call { func: "abs".into(), args: vec![var("x")] }));
    assert_eq!(
        parse("complex_multiply(a, b + 1)"),
        Ok(Expr::Call {
            func: "complex_multiply".into(),
            args: vec![var("a"), bin(Add, var("b"), num(1))],
        })
    );
}

#[test]
fn floats_keep_their_literal() {
    assert_eq!(parse("3.5 * x"), Ok(bin(Mul, Expr::Float("3.5".into()), var("x"))));
}

#[test]
fn parse_errors() {
    assert_eq!(parse("1 +"), Err(ParserError::UnexpectedPrefixToken(Token::Eof)));
    assert_eq!(parse("(1 + 2"), Err(ParserError::MissingExprRParen(Token::Eof)));
    assert_eq!(parse("1 2"), Err(ParserError::UnexpectedToken(Token::Int(2))));
    assert_eq!(parse("f(1 2)"), Err(ParserError::MissingExprRParen(Token::Int(2))));
    assert_eq!(
        parse("f()"),
        Err(ParserError::UnexpectedPrefixToken(Token::Op(ExprSymbol::RParen)))
    );
    assert_eq!(
        parse("1 $ 2"),
        Err(ParserError::LexerError(LexerError::UnexpectedChar {
            c: '$',
            pos: TextPos { line: 1, col: 3 },
        }))
    );
}

#[test]
fn parse_goes_on_after_the_expression() {
    let mut parser = Parser::new("x").unwrap();
    assert_eq!(parser.parse(), Ok(var("x")));
    // the parser now stands at the end of the text
    assert_eq!(parser.parse(), Err(ParserError::UnexpectedPrefixToken(Token::Eof)));
}
