use pratt_parser::{
    string_prefixes, valid_identifier_char, DefaultOperators, Delimiter, Lexer, LexerError,
    NullDelimiter, Operator, ParserError, TextPos, Token, TokenPos,
};

#[derive(Clone, PartialEq, Debug)]
enum Quote {
    Str(String),
}

impl Delimiter for Quote {
    fn variants() -> Vec<Self> {
        vec![Quote::Str(String::new())]
    }

    fn delimiters(&self) -> Option<(String, String)> {
        Some(("<<".into(), "<>".into()))
    }

    fn set(&mut self, input: String) {
        match self {
            Quote::Str(x) => *x = input,
        }
    }
}

#[derive(Debug, Clone, Copy, PartialEq)]
enum Arrow {
    Left,
    Right,
    Dash,
}

impl Operator for Arrow {
    fn variants() -> Vec<Self> {
        vec![Arrow::Left, Arrow::Right, Arrow::Dash]
    }

    fn symbol(&self) -> String {
        match self {
            Arrow::Left => "<--",
            Arrow::Right => "-->",
            Arrow::Dash => "-",
        }
        .into()
    }
}

fn at<O, D>(token: Token<O, D>, line: usize, col: usize) -> TokenPos<O, D> {
    TokenPos::new(token, TextPos { line, col })
}

#[test]
fn prefixes_of_a_string() {
    assert_eq!(string_prefixes(&"abc".to_string()), vec!["a", "ab", "abc"]);
    assert_eq!(string_prefixes(&"aé".to_string()), vec!["a", "aé"]);
    assert!(string_prefixes(&String::new()).is_empty());
}

#[test]
fn identifier_characters() {
    assert!(valid_identifier_char('a'));
    assert!(valid_identifier_char('Z'));
    assert!(valid_identifier_char('7'));
    assert!(valid_identifier_char('_'));
    assert!(valid_identifier_char('é'));
    assert!(!valid_identifier_char('-'));
    assert!(!valid_identifier_char(' '));
}

#[test]
fn text_position_default_is_first_char() {
    assert_eq!(TextPos::default(), TextPos { line: 1, col: 1 });
}

#[test]
fn parser_error_from_lexer_error() {
    let e = LexerError::UnexpectedChar { c: '@', pos: TextPos { line: 2, col: 5 } };
    assert_eq!(ParserError::from(e.clone()), ParserError::LexerError(e));
}

#[test]
fn token_is_eof() {
    assert!(Token::<DefaultOperators, NullDelimiter>::Eof.is_eof());
    assert!(!Token::<DefaultOperators, NullDelimiter>::Int(3).is_eof());
    assert_eq!(TokenPos::<DefaultOperators, NullDelimiter>::eof().pos, None);
}

#[test]
fn default_operator_symbols() {
    assert_eq!(DefaultOperators::variants().len(), 20);
    assert_eq!(DefaultOperators::Pow.symbol(), "**");
    assert_eq!(DefaultOperators::LShift.symbol(), "<<");
    assert_eq!(DefaultOperators::Add.binding_power(), (None, None));
}

#[test]
fn text_is_kept() {
    let mut lexer = Lexer::default();
    lexer.set_text("here is some text");
    assert_eq!(lexer.text(), "here is some text");
    lexer.set_text(&String::from("here is a String"));
    assert_eq!(lexer.text(), "here is a String");
}

#[test]
fn longest_operator_wins() {
    let mut lexer = Lexer::<Arrow>::new();
    lexer.set_text("-->x<---");
    assert_eq!(lexer.next().unwrap(), at(Token::Op(Arrow::Right), 1, 1));
    assert_eq!(lexer.next().unwrap(), at(Token::Ident("x".into()), 1, 4));
    assert_eq!(lexer.next().unwrap(), at(Token::Op(Arrow::Left), 1, 5));
    assert_eq!(lexer.next().unwrap(), at(Token::Op(Arrow::Dash), 1, 8));
    assert_eq!(lexer.next().unwrap(), TokenPos::eof());
}

#[test]
fn shorter_operator_when_longer_one_breaks_off() {
    let mut lexer = Lexer::<Arrow>::new();
    // "--" is a prefix of "-->" but no operator: the lexer falls back to "-"
    lexer.set_text("--x");
    assert_eq!(lexer.next().unwrap(), at(Token::Op(Arrow::Dash), 1, 1));
    assert_eq!(lexer.next().unwrap(), at(Token::Op(Arrow::Dash), 1, 2));
    assert_eq!(lexer.next().unwrap(), at(Token::Ident("x".into()), 1, 3));
}

#[test]
fn unexpected_string_shows_the_breaking_char() {
    let mut lexer = Lexer::default();
    // "<<=" is no operator: "<<" is taken, then "=" alone is only a prefix of "=="
    lexer.set_text("<<=");
    assert_eq!(lexer.next().unwrap(), at(Token::Op(DefaultOperators::LShift), 1, 1));
    assert_eq!(
        lexer.next(),
        Err(LexerError::UnexpectedString { str: "=".into(), pos: TextPos { line: 1, col: 3 } })
    );
    lexer.set_text("=x");
    assert_eq!(
        lexer.next(),
        Err(LexerError::UnexpectedString { str: "=x".into(), pos: TextPos { line: 1, col: 1 } })
    );
}

#[test]
fn delimiter_wins_over_operator_and_ends_at_first_closing() {
    let mut lexer = Lexer::<DefaultOperators, Quote>::new();
    // "<<" is both an operator and the left delimiter: the delimiter is taken
    lexer.set_text("<<a<b<><>");
    assert_eq!(lexer.next().unwrap(), at(Token::Delimited(Quote::Str("a<b".into())), 1, 1));
    assert_eq!(lexer.next().unwrap(), at(Token::Op(DefaultOperators::Lt), 1, 8));
    assert_eq!(lexer.next().unwrap(), at(Token::Op(DefaultOperators::Gt), 1, 9));
    assert_eq!(lexer.next().unwrap(), TokenPos::eof());
}

#[test]
fn delimited_text_may_span_lines() {
    let mut lexer = Lexer::<DefaultOperators, Quote>::new();
    lexer.set_text("<<a\nb<> c");
    assert_eq!(lexer.next().unwrap(), at(Token::Delimited(Quote::Str("a\nb".into())), 1, 1));
    assert_eq!(lexer.next().unwrap(), at(Token::Ident("c".into()), 2, 5));
}

#[test]
fn integer_bounds() {
    let mut lexer = Lexer::default();
    lexer.set_text("9223372036854775807");
    assert_eq!(lexer.next().unwrap(), at(Token::Int(i64::MAX), 1, 1));
    lexer.set_text("9223372036854775808");
    assert_eq!(
        lexer.next(),
        Err(LexerError::IntegerParsingError {
            str: "9223372036854775808".into(),
            pos: TextPos { line: 1, col: 1 },
        })
    );
    lexer.set_text("007");
    assert_eq!(lexer.next().unwrap(), at(Token::Int(7), 1, 1));
}

#[test]
fn non_ascii_numerals_are_read_but_do_not_parse() {
    let mut lexer = Lexer::default();
    lexer.set_text("²");
    assert!("²".parse::<i64>().is_err());
    assert_eq!(
        lexer.next(),
        Err(LexerError::IntegerParsingError { str: "²".into(), pos: TextPos { line: 1, col: 1 } })
    );
}

#[test]
fn float_literals() {
    let mut lexer = Lexer::default();
    lexer.set_text("1. 0.5");
    assert_eq!("1.".parse::<f64>(), Ok(1.0));
    assert_eq!(lexer.next().unwrap(), at(Token::Float("1.".into()), 1, 1));
    assert_eq!(lexer.next().unwrap(), at(Token::Float("0.5".into()), 1, 4));
    lexer.set_text("3..4");
    assert!("3..4".parse::<f64>().is_err());
    assert_eq!(
        lexer.next(),
        Err(LexerError::FloatParsingError { str: "3..4".into(), pos: TextPos { line: 1, col: 1 } })
    );
}

#[test]
fn unicode_whitespace_is_skipped() {
    let mut lexer = Lexer::default();
    lexer.set_text("\u{a0}\r\u{2003}x");
    assert_eq!(lexer.next().unwrap(), at(Token::Ident("x".into()), 1, 4));
}

#[test]
fn lex_all_restarts_from_the_beginning() {
    let mut lexer = Lexer::default();
    lexer.set_text("a + b");
    assert_eq!(lexer.next().unwrap(), at(Token::Ident("a".into()), 1, 1));
    let tokens = lexer.lex_all().unwrap();
    assert_eq!(tokens.len(), 4);
    assert_eq!(tokens[0], at(Token::Ident("a".into()), 1, 1));
    assert_eq!(tokens[3], TokenPos::eof());
    // the position is now past the end
    assert_eq!(lexer.next().unwrap(), TokenPos::eof());
}

#[test]
fn lex_all_matches_successive_next_calls() {
    let text = "x1 * (y) % 2.5 != z";
    let mut a = Lexer::default();
    a.set_text(text);
    let mut b = Lexer::default();
    b.set_text(text);
    let all = a.lex_all();
    let mut one_by_one = Vec::new();
    loop {
        match b.next() {
            Ok(t) => {
                let end = t.token.is_eof();
                one_by_one.push(t);
                if end {
                    break;
                }
            }
            Err(e) => {
                assert_eq!(all, Err(e));
                return;
            }
        }
    }
    assert_eq!(all, Ok(one_by_one));
}

#[test]
fn set_text_drops_kept_tokens() {
    let mut lexer = Lexer::default();
    lexer.set_text("a");
    assert_eq!(lexer.lex_all().unwrap().len(), 2);
    lexer.set_text("a b c");
    assert_eq!(lexer.lex_all().unwrap().len(), 4);
}

#[test]
fn lex_all_error_is_sticky() {
    let mut lexer = Lexer::default();
    lexer.set_text("a $");
    let e = Err(LexerError::UnexpectedChar { c: '$', pos: TextPos { line: 1, col: 3 } });
    assert_eq!(lexer.lex_all(), e);
    assert_eq!(lexer.lex_all(), e);
    assert_eq!(lexer.next().map(|_| ()), e.map(|_: Vec<TokenPos<DefaultOperators, NullDelimiter>>| ()));
}

#[test]
fn symbol_char_that_begins_nothing_is_an_unexpected_string() {
    // '>' only occurs inside "->": it is a symbol character that begins no operator
    #[derive(Debug, Clone, Copy, PartialEq)]
    enum Thin {
        Arrow,
    }
    impl Operator for Thin {
        fn variants() -> Vec<Self> {
            vec![Thin::Arrow]
        }

        fn symbol(&self) -> String {
            "->".into()
        }
    }
    let mut lexer = Lexer::<Thin>::new();
    lexer.set_text("-> >");
    assert_eq!(lexer.next().unwrap(), at(Token::Op(Thin::Arrow), 1, 1));
    let e = Err(LexerError::UnexpectedString { str: ">".into(), pos: TextPos { line: 1, col: 4 } });
    assert_eq!(lexer.next(), e);
    lexer.set_text("a\n>b");
    assert_eq!(
        lexer.lex_all(),
        Err(LexerError::UnexpectedString { str: ">b".into(), pos: TextPos { line: 2, col: 1 } })
    );
    // a character that occurs in no operator is still an unexpected character
    lexer.set_text("$");
    assert_eq!(
        lexer.next(),
        Err(LexerError::UnexpectedChar { c: '$', pos: TextPos { line: 1, col: 1 } })
    );
}

#[test]
fn single_closing_char_does_not_close() {
    #[derive(Clone, PartialEq, Debug)]
    enum Arr {
        Arr(String),
    }
    impl Delimiter for Arr {
        fn variants() -> Vec<Self> {
            vec![Arr::Arr(String::new())]
        }

        fn delimiters(&self) -> Option<(String, String)> {
            Some(("[[".into(), "]]".into()))
        }

        fn set(&mut self, input: String) {
            match self {
                Arr::Arr(x) => *x = input,
            }
        }
    }
    let mut lexer = Lexer::<DefaultOperators, Arr>::new();
    lexer.set_text("[[a]b]] x");
    assert_eq!(lexer.next().unwrap(), at(Token::Delimited(Arr::Arr("a]b".into())), 1, 1));
    assert_eq!(lexer.next().unwrap(), at(Token::Ident("x".into()), 1, 9));
}

#[test]
fn arrows_and_a_string() {
    #[derive(Clone, PartialEq, Debug)]
    enum MyDelimiter {
        Str(String),
    }
    impl Delimiter for MyDelimiter {
        fn variants() -> Vec<Self> {
            vec![MyDelimiter::Str(String::new())]
        }

        fn delimiters(&self) -> Option<(String, String)> {
            Some(("\"".into(), "\"".into()))
        }

        fn set(&mut self, input: String) {
            match self {
                MyDelimiter::Str(x) => *x = input,
            }
        }
    }
    #[derive(Debug, Clone, Copy, PartialEq)]
    enum MyOperator {
        LeftArrow,
        RightArrow,
    }
    impl Operator for MyOperator {
        fn variants() -> Vec<Self> {
            vec![MyOperator::LeftArrow, MyOperator::RightArrow]
        }

        fn symbol(&self) -> String {
            match self {
                MyOperator::LeftArrow => "<--".into(),
                MyOperator::RightArrow => "-->".into(),
            }
        }
    }
    let mut lexer = Lexer::<MyOperator, MyDelimiter>::new();
    lexer.set_text("-->\"Hello, world!\"<--");
    assert_eq!(lexer.next().unwrap().token, Token::Op(MyOperator::RightArrow));
    assert_eq!(
        lexer.next().unwrap().token,
        Token::Delimited(MyDelimiter::Str("Hello, world!".into()))
    );
    assert_eq!(lexer.next().unwrap().token, Token::Op(MyOperator::LeftArrow));

    let mut lexer = Lexer::<MyOperator>::new();
    lexer.set_text("-->100<--");
    assert_eq!(lexer.next().unwrap().token, Token::Op(MyOperator::RightArrow));
    assert_eq!(lexer.next().unwrap().token, Token::Int(100));
    assert_eq!(lexer.next().unwrap().token, Token::Op(MyOperator::LeftArrow));
}

#[test]
fn lex_all_is_at_most_one_token_per_char_and_eof() {
    let mut lexer = Lexer::default();
    lexer.set_text("a+b*c");
    let tokens = lexer.lex_all().unwrap();
    assert_eq!(tokens.len(), 6);
    assert!(tokens.len() <= "a+b*c".chars().count() + 1);
}

#[test]
fn lexer_from_explicit_rules() {
    let mut lexer = Lexer::<Arrow, Quote>::with_rules(
        vec![("=>".into(), Arrow::Right), ("=>".into(), Arrow::Left)],
        vec![("{".into(), "}".into(), Quote::Str(String::new()))],
    );
    lexer.set_text("=> {x}");
    // the last operator with a given text wins
    assert_eq!(lexer.next().unwrap(), at(Token::Op(Arrow::Left), 1, 1));
    assert_eq!(lexer.next().unwrap(), at(Token::Delimited(Quote::Str("x".into())), 1, 4));
}

#[test]
fn null_delimiter_has_no_delimiters() {
    assert!(NullDelimiter::variants().is_empty());
    assert_eq!(NullDelimiter.delimiters(), None);
}


#[test]
fn default_lexer_is_the_new_lexer_of_the_default_types() {
    let text = "a ** 2 >> b != c";
    let mut d = Lexer::default();
    d.set_text(text);
    let mut n = Lexer::<DefaultOperators, NullDelimiter>::new();
    n.set_text(text);
    assert_eq!(d.text(), n.text());
    assert_eq!(d.lex_all(), n.lex_all());
    assert_eq!(d.lex_all().unwrap().len(), 8);
}

#[test]
fn set_text_behaves_like_a_fresh_lexer() {
    let mut used = Lexer::<Arrow, Quote>::new();
    used.set_text("--> ~");
    assert_eq!(used.next().unwrap(), at(Token::Op(Arrow::Right), 1, 1));
    assert!(used.next().is_err());
    let text = "<-- <<x<> - y";
    used.set_text(text);
    let mut fresh = Lexer::<Arrow, Quote>::new();
    fresh.set_text(text);
    for _ in 0..5 {
        assert_eq!(used.next(), fresh.next());
    }
    assert_eq!(used.lex_all(), fresh.lex_all());
    assert_eq!(
        fresh.lex_all().unwrap()[1],
        at(Token::Delimited(Quote::Str("x".into())), 1, 5)
    );
}

#[test]
fn token_kinds() {
    let mut lexer = Lexer::default();
    lexer.set_text("7 2.5 x +");
    let v = lexer.lex_all().unwrap();
    assert!(v[0].token.is_int() && !v[0].token.is_float());
    assert!(v[1].token.is_float() && !v[1].token.is_ident());
    assert!(v[2].token.is_ident() && !v[2].token.is_op());
    assert!(v[3].token.is_op() && !v[3].token.is_delimited());
    assert!(v[4].token.is_eof() && !v[4].token.is_int());
    let d: Token<DefaultOperators, Quote> = Token::Delimited(Quote::Str("q".into()));
    assert!(d.is_delimited() && !d.is_eof());
}

#[test]
fn whitespace_is_what_std_calls_whitespace() {
    // every character with the White_Space property lies below U+3001
    let mut lexer = Lexer::default();
    for code in 0u32..0x3001 {
        let Some(c) = char::from_u32(code) else { continue };
        lexer.set_text(&format!("a{}b", c));
        let split_in_two = matches!(lexer.lex_all(), Ok(v) if v.len() == 3);
        assert_eq!(split_in_two, c.is_whitespace(), "character U+{:04X}", code);
    }
}

#[test]
fn token_positions_strictly_grow() {
    let mut lexer = Lexer::default();
    lexer.set_text("a +\n  b\n\n* 12 c");
    let v = lexer.lex_all().unwrap();
    let positions: Vec<(usize, usize)> =
        v.iter().filter_map(|t| t.pos.map(|p| (p.line, p.col))).collect();
    assert_eq!(positions, vec![(1, 1), (1, 3), (2, 3), (4, 1), (4, 3), (4, 6)]);
    assert!(positions.windows(2).all(|w| w[0] < w[1]));
}

#[test]
fn lex_all_gives_the_same_vector_again() {
    let mut lexer = Lexer::<Arrow, Quote>::new();
    lexer.set_text("<<a b<> --> x");
    let first = lexer.lex_all();
    assert!(first.is_ok());
    let _ = lexer.next();
    let _ = lexer.next();
    assert_eq!(lexer.lex_all(), first);
}
