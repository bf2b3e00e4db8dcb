# pratt_parser

A Pratt parser and its lexer, verified with Verus. The lexer turns text into tokens:
integers, float literals, identifiers, user-defined operators and user-defined
delimited text (such as `"strings"`), each with the line and column where it starts.
The parser turns an arithmetic expression into an expression tree by operator
precedence, with variables (`X, num_1`), calls (`abs(x)`, `complex_multiply(a, b)`)
and the operators `+ - * / ^`:

- `"1 + 2 * 3"` gives `(+ 1 (* 2 3))`;
- `"1 + 2 * Z^2"` gives `(+ 1 (* 2 (^ Z 2)))`;
- `"(1 + 2) * 3"` gives `(* (+ 1 2) 3)`.

- `src/parser.rs` is the `Parser`. `Parser::new` lexes the text with the symbols of
  the expression language (`ExprSymbol`: the five operators, the parentheses and the
  comma) and `Parser::parse` gives the tree that `parse_spec` defines over the
  tokens, or its error. `+` and `-` bind least, then `*` and `/`, then the unary
  minus, then `^`; `^` associates to the right and the others to the left. The laws
  (`lemma_two_operators`, `lemma_left_associative`, `lemma_pow_right_associative`,
  `lemma_grouping`, `lemma_call`, `lemma_unary_minus`) state this over the tokens.
  A float operand holds its literal, as a float token does. The parser reads the
  whole text into tokens first, so a lexer error comes before any parse error.
- `src/lexer/semantics.rs` states what the lexer reads, as functions of its rules
  (operator texts, left and right delimiters) and its text, with the laws proved of
  them: positions (strictly growing along the text and from one token to the
  next), longest match, the first closing delimiter, the end of the text
  repeating, every other token taking at least one character, and lexing ending on
  every text.
- `src/lexer/mod.rs` is the `Lexer`. Its methods give the tokens and errors of those
  functions; operators are the lexer's operator values, and a delimited token is a
  clone of its delimited value filled (through `Delimiter::set` and the
  `Delimiter::filled` it promises) with the text between the delimiters. `lex_all`
  gives the tokens that successive `next` calls give, and keeps them: where the
  delimited type's clones are exact (`clones_exactly`; the null delimiter's are), every
  later `lex_all` call gives the same vector (`kept`) until the text is set anew.
  The lexer's operator, delimiter, character and prefix tables are vectors searched
  in order; what each means is part of the lexer's invariant. `new` builds its tables from
  what the `Operator` and `Delimiter` methods return; where those methods answer
  alike on alike arguments, two lexers that `new` builds have the same tables
  (`lemma_built_alike`), and for the default types these are the default rules
  (`lemma_built_default`), which `Default` gives. The lexer's well-formedness is a
  type invariant, so its public methods ask nothing of it.
- `src/lexer/number.rs` decides which literals `str::parse` accepts as `i64` and `f64`.
  A float token holds its literal (`"3.14"`); its `f64` value is read in `app/`.
- `src/lexer/chars.rs` holds the character classes and text helpers. Whitespace is
  the Unicode `White_Space` list that `char::is_whitespace` follows, written out and
  verified; `is_numeric` and `is_alphanumeric` outside ASCII are left to std.
- `app/` adds what stays outside the verified library: `Display`/`Error` for the errors
  (thiserror), `Display`/`EnumIter` for the default operators (strum), the `f64`
  value of float tokens and float expressions, and `parse_text`, which parses a text
  in one call.

The lexer's default operators follow the tests: `**` is `Pow` and `^` is `BwXor`, so
with them `z^2` reads as `z`, `BwXor`, `2`. The parser has its own symbols, in which
`^` is the power, as its examples write it. An unexpected character is one that can begin no token:
it occurs in no operator or delimiter and is not alphanumeric or `_`. A symbol
character that begins no operator or left delimiter (such as `>` where the only
operator is `->`) is read as a symbol that is not recognised: an unexpected string
made of that character and the next one.
