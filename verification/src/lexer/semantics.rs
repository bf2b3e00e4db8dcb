//! What the lexer produces, stated as functions of its rules and its text.

use vstd::prelude::*;
use crate::error::LexerErrorView;
use crate::lexer::chars::{is_alphanumeric, is_identifier_char, is_numeric, is_whitespace};
use crate::lexer::number::{is_float_literal, unsigned_i64};
use crate::lexer::token::{TokenPosView, TokenView};

verus! {

/// The rules of a lexer as plain values: the text of each operator, in table order,
/// and the left and right delimiters of each delimited type, in table order.
pub struct Rules {
    pub ops: Seq<Seq<char>>,
    pub dls: Seq<(Seq<char>, Seq<char>)>,
}

/// The result of lexing one token.
pub type Outcome = Result<TokenPosView, LexerErrorView>;

/// The position after reading `c` at position `p`: a newline starts the next line.
pub open spec fn step_pos(p: (int, int), c: char) -> (int, int) {
    if c == '\n' {
        (p.0 + 1, 1)
    } else {
        (p.0, p.1 + 1)
    }
}

/// The (line, column) of the character at index `i` of `t`; the first is (1, 1).
pub open spec fn pos_at(t: Seq<char>, i: int) -> (int, int)
    decreases i,
{
    if i <= 0 {
        (1, 1)
    } else {
        step_pos(pos_at(t, i - 1), t[i - 1])
    }
}

/// Line and column are at least 1 and grow by at most one per character read.
pub proof fn lemma_pos_bounds(t: Seq<char>, i: int)
    requires
        0 <= i,
    ensures
        1 <= pos_at(t, i).0 <= i + 1,
        1 <= pos_at(t, i).1 <= i + 1,
    decreases i,
{
    if i > 0 {
        lemma_pos_bounds(t, i - 1);
    }
}

/// Reading the character at index `i` moves the position as `step_pos` says: past a
/// newline to the first column of the next line, else one column on.
pub proof fn lemma_pos_step(t: Seq<char>, i: int)
    requires
        0 <= i,
    ensures
        pos_at(t, i + 1) == step_pos(pos_at(t, i), t[i]),
{
}

/// Position `a` comes before position `b`: on an earlier line, or earlier on the
/// same line.
pub open spec fn pos_before(a: (int, int), b: (int, int)) -> bool {
    a.0 < b.0 || (a.0 == b.0 && a.1 < b.1)
}

/// Positions strictly grow along the text.
pub proof fn lemma_pos_increasing(t: Seq<char>, i: int, j: int)
    requires
        0 <= i < j,
    ensures
        pos_before(pos_at(t, i), pos_at(t, j)),
    decreases j,
{
    if i < j - 1 {
        lemma_pos_increasing(t, i, j - 1);
    }
}

/// The first index at or after `i` that does not hold whitespace.
pub open spec fn skip_ws(t: Seq<char>, i: int) -> int
    decreases t.len() - i,
{
    if 0 <= i < t.len() && is_whitespace(t[i]) {
        skip_ws(t, i + 1)
    } else {
        i
    }
}

/// The end of the run of identifier characters that starts at `i`.
pub open spec fn ident_end(t: Seq<char>, i: int) -> int
    decreases t.len() - i,
{
    if 0 <= i < t.len() && is_identifier_char(t[i]) {
        ident_end(t, i + 1)
    } else {
        i
    }
}

/// A character of a number literal: numeric, or a dot.
pub open spec fn is_number_char(c: char) -> bool {
    is_numeric(c) || c == '.'
}

/// The end of the run of number characters that starts at `i`.
pub open spec fn number_end(t: Seq<char>, i: int) -> int
    decreases t.len() - i,
{
    if 0 <= i < t.len() && is_number_char(t[i]) {
        number_end(t, i + 1)
    } else {
        i
    }
}

/// The left or the right delimiter of delimited type `j` holds `c`.
pub open spec fn delimiter_has_char(r: Rules, j: int, c: char) -> bool {
    r.dls[j].0.contains(c) || r.dls[j].1.contains(c)
}

/// A character that occurs in some operator, or in some left or right delimiter.
pub open spec fn is_valid_symbol_char(r: Rules, c: char) -> bool {
    ||| exists|i: int| 0 <= i < r.ops.len() && #[trigger] r.ops[i].contains(c)
    ||| exists|j: int| 0 <= j < r.dls.len() && #[trigger] delimiter_has_char(r, j, c)
}

/// A non-empty prefix of some operator or of some left delimiter.
pub open spec fn is_symbol_prefix(r: Rules, p: Seq<char>) -> bool {
    &&& p.len() > 0
    &&& {
        ||| exists|i: int| 0 <= i < r.ops.len() && p.is_prefix_of(#[trigger] r.ops[i])
        ||| exists|j: int| 0 <= j < r.dls.len() && p.is_prefix_of(#[trigger] r.dls[j].0)
    }
}

/// A character that may start a token: a symbol character or an identifier character.
pub open spec fn is_token_start(r: Rules, c: char) -> bool {
    is_valid_symbol_char(r, c) || is_identifier_char(c)
}

/// The last index below `n` at which `table` holds `p`.
pub open spec fn last_index_of(table: Seq<Seq<char>>, p: Seq<char>, n: int) -> Option<int>
    decreases n,
{
    if n <= 0 {
        None
    } else if table[n - 1] == p {
        Some(n - 1)
    } else {
        last_index_of(table, p, n - 1)
    }
}

/// The left delimiters, in table order.
pub open spec fn lefts(r: Rules) -> Seq<Seq<char>> {
    Seq::new(r.dls.len(), |j: int| r.dls[j].0)
}

/// The operator whose text is `p`; the last one in the table where several share it.
pub open spec fn op_lookup(r: Rules, p: Seq<char>) -> Option<int> {
    last_index_of(r.ops, p, r.ops.len() as int)
}

/// The delimited type whose left delimiter is `p`; the last one where several share it.
pub open spec fn dl_lookup(r: Rules, p: Seq<char>) -> Option<int> {
    last_index_of(lefts(r), p, r.dls.len() as int)
}

/// The length of the run of symbol prefixes that starts at `s`: `k` characters are
/// already known to be a symbol prefix; it grows while one more character still is.
pub open spec fn symbol_run(r: Rules, t: Seq<char>, s: int, k: int) -> int
    decreases t.len() - (s + k),
{
    if 0 <= s && 0 <= k && s + k < t.len() && is_symbol_prefix(r, t.subrange(s, s + k + 1)) {
        symbol_run(r, t, s, k + 1)
    } else {
        k
    }
}

/// Which symbol a prefix of the run resolves to: a delimited type or an operator, with
/// the prefix's length.
pub enum Pick {
    Delim(int, int),
    Op(int, int),
}

/// The longest prefix of length at most `len` starting at `s` that is a left delimiter
/// or an operator; a left delimiter wins over an operator of the same text.
pub open spec fn pick(r: Rules, t: Seq<char>, s: int, len: int) -> Option<Pick>
    decreases len,
{
    if len <= 0 {
        None
    } else {
        let p = t.subrange(s, s + len);
        match dl_lookup(r, p) {
            Some(j) => Some(Pick::Delim(j, len)),
            None => match op_lookup(r, p) {
                Some(i) => Some(Pick::Op(i, len)),
                None => pick(r, t, s, len - 1),
            },
        }
    }
}

/// The text read from `a` up to `b` ends with the closing delimiter `close`.
pub open spec fn closes_at(t: Seq<char>, a: int, close: Seq<char>, b: int) -> bool {
    b - a >= close.len() && t.subrange(b - close.len(), b) == close
}

/// The first end `b` at or after the given one, reading at least one character from
/// `a`, where the text read ends with `close`.
pub open spec fn close_search(t: Seq<char>, a: int, close: Seq<char>, b: int) -> Option<int>
    decreases t.len() + 1 - b,
{
    if b < a + 1 || b > t.len() {
        None
    } else if closes_at(t, a, close, b) {
        Some(b)
    } else {
        close_search(t, a, close, b + 1)
    }
}

/// A token at position `p`.
pub open spec fn token_at(token: TokenView, p: (int, int)) -> TokenPosView {
    TokenPosView { token, pos: Some(p) }
}

/// An identifier starting at `s`: the whole run of identifier characters.
pub open spec fn lex_ident(t: Seq<char>, s: int) -> (Outcome, int) {
    let e = ident_end(t, s);
    (Ok(token_at(TokenView::Ident(t.subrange(s, e)), pos_at(t, s))), e)
}

/// A number starting at `s`: the run of numeric characters and dots, a float when it
/// holds a dot and an integer otherwise.
pub open spec fn lex_number(t: Seq<char>, s: int) -> (Outcome, int) {
    let e = number_end(t, s);
    let lit = t.subrange(s, e);
    let p = pos_at(t, s);
    if lit.contains('.') {
        if is_float_literal(lit) {
            (Ok(token_at(TokenView::Float(lit), p)), e)
        } else {
            (Err(LexerErrorView::FloatParsingError { text: lit, pos: p }), e)
        }
    } else {
        match unsigned_i64(lit) {
            Some(v) => (Ok(token_at(TokenView::Int(v), p)), e),
            None => (Err(LexerErrorView::IntegerParsingError { text: lit, pos: p }), e),
        }
    }
}

/// The delimited type `j`, whose left delimiter `open` ended at `a` and whose token
/// starts at `p`: its value is the text up to the first `close`.
pub open spec fn lex_delimited(
    t: Seq<char>,
    a: int,
    j: int,
    open: Seq<char>,
    close: Seq<char>,
    p: (int, int),
) -> (Outcome, int) {
    match close_search(t, a, close, a + 1) {
        None => (
            Err(LexerErrorView::MissingClosingDelimiter { open, expected: close, pos: p }),
            t.len() as int,
        ),
        Some(b) => (
            Ok(token_at(TokenView::Delimited(j, t.subrange(a, b - close.len())), p)),
            b,
        ),
    }
}

/// A symbol starting at `s`: the longest operator or left delimiter among the prefixes
/// of the run of symbol prefixes there.
pub open spec fn lex_symbol(r: Rules, t: Seq<char>, s: int) -> (Outcome, int) {
    let m = symbol_run(r, t, s, 1);
    let p = pos_at(t, s);
    let shown = if s + m < t.len() {
        t.subrange(s, s + m + 1)
    } else {
        t.subrange(s, s + m)
    };
    match pick(r, t, s, m) {
        None => (Err(LexerErrorView::UnexpectedString { text: shown, pos: p }), s),
        Some(Pick::Op(i, len)) => (Ok(token_at(TokenView::Op(i), p)), s + len),
        Some(Pick::Delim(j, len)) => lex_delimited(
            t,
            s + len,
            j,
            t.subrange(s, s + len),
            r.dls[j].1,
            p,
        ),
    }
}

/// The text shown for a symbol character at `s` that begins no symbol: that
/// character and the next one, if there is one.
pub open spec fn stuck_text(t: Seq<char>, s: int) -> Seq<char> {
    if s + 1 < t.len() {
        t.subrange(s, s + 2)
    } else {
        t.subrange(s, s + 1)
    }
}

/// The token that the lexer reads from index `i` of `t`, and the index after it.
pub open spec fn lex_at(r: Rules, t: Seq<char>, i: int) -> (Outcome, int) {
    let s = skip_ws(t, i);
    if s >= t.len() {
        (Ok(TokenPosView { token: TokenView::Eof, pos: None }), s)
    } else {
        let c = t[s];
        if !is_token_start(r, c) {
            (Err(LexerErrorView::UnexpectedChar { c, pos: pos_at(t, s) }), s)
        } else if is_numeric(c) {
            lex_number(t, s)
        } else if is_symbol_prefix(r, seq![c]) {
            lex_symbol(r, t, s)
        } else if is_identifier_char(c) {
            lex_ident(t, s)
        } else {
            // a symbol character that begins no operator or left delimiter: the text
            // read as a symbol, this character and the next, is not recognised
            (Err(LexerErrorView::UnexpectedString { text: stuck_text(t, s), pos: pos_at(t, s) }), s)
        }
    }
}

/// Lexing the whole text: all tokens up to and including the end, with the index after
/// it; or the first error; or not yet finished after the given number of tokens.
pub enum LexRun {
    Done(Seq<TokenPosView>, int),
    Failed(LexerErrorView),
    Unfinished,
}

/// Lex at most `fuel` tokens from index `i`.
pub open spec fn lex_run(r: Rules, t: Seq<char>, i: int, fuel: nat) -> LexRun
    decreases fuel,
{
    if fuel == 0 {
        LexRun::Unfinished
    } else {
        let (out, j) = lex_at(r, t, i);
        match out {
            Err(e) => LexRun::Failed(e),
            Ok(tp) => if tp.token is Eof {
                LexRun::Done(seq![tp], j)
            } else {
                match lex_run(r, t, j, (fuel - 1) as nat) {
                    LexRun::Done(ts, k) => LexRun::Done(seq![tp] + ts, k),
                    other => other,
                }
            },
        }
    }
}

/// Lexing the text from the start reaches its end or an error.
pub open spec fn lex_terminates(r: Rules, t: Seq<char>) -> bool {
    exists|n: nat| !(#[trigger] lex_run(r, t, 0, n) is Unfinished)
}

/// The result of lexing the whole text from the start.
pub open spec fn lex_all_outcome(r: Rules, t: Seq<char>) -> LexRun {
    lex_run(r, t, 0, choose|n: nat| !(#[trigger] lex_run(r, t, 0, n) is Unfinished))
}

/// More fuel changes nothing once lexing has finished.
pub proof fn lemma_lex_run_fuel(r: Rules, t: Seq<char>, i: int, n: nat, m: nat)
    requires
        n <= m,
        !(lex_run(r, t, i, n) is Unfinished),
    ensures
        lex_run(r, t, i, m) == lex_run(r, t, i, n),
    decreases n,
{
    if n > 0 {
        let (out, j) = lex_at(r, t, i);
        if let Ok(tp) = out {
            if !(tp.token is Eof) {
                lemma_lex_run_fuel(r, t, j, (n - 1) as nat, (m - 1) as nat);
            }
        }
    }
}

/// What a table lookup finds is in the table, below the bound, and equal to the key.
pub proof fn lemma_last_index_of(table: Seq<Seq<char>>, p: Seq<char>, n: int)
    ensures
        last_index_of(table, p, n) matches Some(i) ==> 0 <= i < n && table[i] == p,
    decreases n,
{
    if n > 0 && table[n - 1] != p {
        lemma_last_index_of(table, p, n - 1);
    }
}

/// Tokens already read, put before the rest of a run.
pub open spec fn prepend(vs: Seq<TokenPosView>, run: LexRun) -> LexRun {
    match run {
        LexRun::Done(ts, k) => LexRun::Done(vs + ts, k),
        other => other,
    }
}

/// A finished run of the whole text ends with the end-of-text token, and holds no
/// other.
pub proof fn lemma_run_ends_with_eof(r: Rules, t: Seq<char>, i: int, n: nat)
    ensures
        lex_run(r, t, i, n) matches LexRun::Done(ts, _) ==> {
            &&& ts.len() >= 1
            &&& ts.last().token is Eof
            &&& forall|k: int| 0 <= k < ts.len() - 1 ==> !(#[trigger] ts[k].token is Eof)
        },
    decreases n,
{
    if n > 0 {
        let (out, j) = lex_at(r, t, i);
        if let Ok(tp) = out {
            if !(tp.token is Eof) {
                lemma_run_ends_with_eof(r, t, j, (n - 1) as nat);
                if let LexRun::Done(ts, _) = lex_run(r, t, j, (n - 1) as nat) {
                    let all = seq![tp] + ts;
                    assert forall|k: int| 0 <= k < all.len() - 1 implies !(#[trigger] all[k].token is Eof) by {
                        if k > 0 {
                            assert(all[k] == ts[k - 1]);
                        }
                    }
                    assert(all.last() == ts.last());
                }
            }
        }
    }
}

proof fn lemma_skip_ws_bounds(t: Seq<char>, i: int)
    requires
        0 <= i <= t.len(),
    ensures
        i <= skip_ws(t, i) <= t.len(),
        skip_ws(t, i) < t.len() ==> !is_whitespace(t[skip_ws(t, i)]),
    decreases t.len() - i,
{
    if i < t.len() && is_whitespace(t[i]) {
        lemma_skip_ws_bounds(t, i + 1);
    }
}

proof fn lemma_skip_ws_stops(t: Seq<char>, i: int)
    requires
        0 <= i <= t.len(),
    ensures
        skip_ws(t, skip_ws(t, i)) == skip_ws(t, i),
    decreases t.len() - i,
{
    if i < t.len() && is_whitespace(t[i]) {
        lemma_skip_ws_stops(t, i + 1);
    }
}

proof fn lemma_ident_end_bounds(t: Seq<char>, i: int)
    requires
        0 <= i <= t.len(),
    ensures
        i <= ident_end(t, i) <= t.len(),
        i < t.len() && is_identifier_char(t[i]) ==> ident_end(t, i) > i,
    decreases t.len() - i,
{
    if i < t.len() && is_identifier_char(t[i]) {
        lemma_ident_end_bounds(t, i + 1);
    }
}

proof fn lemma_number_end_bounds(t: Seq<char>, i: int)
    requires
        0 <= i <= t.len(),
    ensures
        i <= number_end(t, i) <= t.len(),
        i < t.len() && is_number_char(t[i]) ==> number_end(t, i) > i,
    decreases t.len() - i,
{
    if i < t.len() && is_number_char(t[i]) {
        lemma_number_end_bounds(t, i + 1);
    }
}

proof fn lemma_symbol_run_bounds(r: Rules, t: Seq<char>, s: int, k: int)
    requires
        0 <= s,
        0 <= k,
        s + k <= t.len(),
    ensures
        k <= symbol_run(r, t, s, k),
        s + symbol_run(r, t, s, k) <= t.len(),
    decreases t.len() - (s + k),
{
    if s + k < t.len() && is_symbol_prefix(r, t.subrange(s, s + k + 1)) {
        lemma_symbol_run_bounds(r, t, s, k + 1);
    }
}

proof fn lemma_pick_bounds(r: Rules, t: Seq<char>, s: int, len: int)
    ensures
        pick(r, t, s, len) matches Some(Pick::Op(_, l)) ==> 1 <= l <= len,
        pick(r, t, s, len) matches Some(Pick::Delim(_, l)) ==> 1 <= l <= len,
    decreases len,
{
    if len > 0 {
        lemma_pick_bounds(r, t, s, len - 1);
    }
}

proof fn lemma_close_search_bounds(t: Seq<char>, a: int, close: Seq<char>, b: int)
    ensures
        close_search(t, a, close, b) matches Some(e) ==> b <= e <= t.len() && a + 1 <= e,
    decreases t.len() + 1 - b,
{
    if !(b < a + 1 || b > t.len()) && !closes_at(t, a, close, b) {
        lemma_close_search_bounds(t, a, close, b + 1);
    }
}

/// Reading a token never moves backwards nor past the end of the text, and every token
/// other than the end of the text moves forward: it takes at least one character.
pub proof fn lemma_lex_at_progress(r: Rules, t: Seq<char>, i: int)
    requires
        0 <= i <= t.len(),
    ensures
        i <= lex_at(r, t, i).1 <= t.len(),
        lex_at(r, t, i).0 matches Ok(tp) && !(tp.token is Eof) ==> lex_at(r, t, i).1 > i,
{
    lemma_skip_ws_bounds(t, i);
    let s = skip_ws(t, i);
    if s < t.len() {
        let c = t[s];
        if is_token_start(r, c) {
            if is_numeric(c) {
                lemma_number_end_bounds(t, s);
            } else if is_symbol_prefix(r, seq![c]) {
                lemma_symbol_run_bounds(r, t, s, 1);
                let m = symbol_run(r, t, s, 1);
                lemma_pick_bounds(r, t, s, m);
                if let Some(Pick::Delim(j, len)) = pick(r, t, s, m) {
                    lemma_close_search_bounds(t, s + len, r.dls[j].1, s + len + 1);
                }
            } else {
                lemma_ident_end_bounds(t, s);
            }
        }
    }
}

/// A token read from index `i` is the end of the text, with no position, or starts at
/// the first character after the whitespace there.
proof fn lemma_lex_at_pos(r: Rules, t: Seq<char>, i: int)
    requires
        0 <= i <= t.len(),
    ensures
        lex_at(r, t, i).0 matches Ok(tp) ==> (tp.token is Eof && tp.pos is None) || tp.pos
            == Some(pos_at(t, skip_ws(t, i))),
{
}

/// The outcome `next` is a token that starts after the token `tp`, when both have a
/// position.
pub open spec fn starts_before(tp: TokenPosView, next: Outcome) -> bool {
    match next {
        Ok(tp2) => match (tp.pos, tp2.pos) {
            (Some(p), Some(q)) => pos_before(p, q),
            _ => true,
        },
        Err(_) => true,
    }
}

/// Successive tokens start at strictly growing positions: a token other than the end
/// of the text has a position, and the token read after it starts later, unless it is
/// the end of the text.
pub proof fn lemma_token_positions_increase(r: Rules, t: Seq<char>, i: int)
    requires
        0 <= i <= t.len(),
    ensures
        lex_at(r, t, i).0 matches Ok(tp) ==> (!(tp.token is Eof) ==> tp.pos is Some),
        lex_at(r, t, i).0 matches Ok(tp) ==> (!(tp.token is Eof) ==> starts_before(
            tp,
            lex_at(r, t, lex_at(r, t, i).1).0,
        )),
{
    lemma_skip_ws_bounds(t, i);
    let s = skip_ws(t, i);
    lemma_skip_ws_stops(t, i);
    assert(lex_at(r, t, s) == lex_at(r, t, i));
    lemma_lex_at_progress(r, t, s);
    lemma_lex_at_pos(r, t, i);
    let (out, j) = lex_at(r, t, i);
    if out matches Ok(tp) && !(tp.token is Eof) {
        lemma_lex_at_pos(r, t, j);
        lemma_skip_ws_bounds(t, j);
        lemma_pos_increasing(t, s, skip_ws(t, j));
    }
}

/// Lexing from index `i` with one token more than characters left always finishes,
/// with at most that many tokens.
proof fn lemma_run_finishes(r: Rules, t: Seq<char>, i: int)
    requires
        0 <= i <= t.len(),
    ensures
        !(lex_run(r, t, i, (t.len() - i + 1) as nat) is Unfinished),
        lex_run(r, t, i, (t.len() - i + 1) as nat) matches LexRun::Done(ts, _) ==> ts.len() <= t.len() - i + 1,
    decreases t.len() - i,
{
    lemma_lex_at_progress(r, t, i);
    let (out, j) = lex_at(r, t, i);
    if let Ok(tp) = out {
        if !(tp.token is Eof) {
            lemma_run_finishes(r, t, j);
            lemma_lex_run_fuel(r, t, j, (t.len() - j + 1) as nat, (t.len() - i) as nat);
        }
    }
}

/// Lexing any text from its start reaches the end of the text or an error, with at
/// most one token more than the text has characters.
pub proof fn lemma_lex_terminates(r: Rules, t: Seq<char>)
    ensures
        lex_terminates(r, t),
        lex_all_outcome(r, t) matches LexRun::Done(ts, _) ==> ts.len() <= t.len() + 1,
{
    lemma_run_finishes(r, t, 0);
    let n = (t.len() + 1) as nat;
    assert(!(lex_run(r, t, 0, n) is Unfinished));
    let m = choose|m: nat| !(#[trigger] lex_run(r, t, 0, m) is Unfinished);
    if m <= n {
        lemma_lex_run_fuel(r, t, 0, m, n);
    } else {
        lemma_lex_run_fuel(r, t, 0, n, m);
    }
}

/// Once the end of the text has been read, reading again gives the end of the text at
/// the same place.
pub proof fn lemma_eof_repeats(r: Rules, t: Seq<char>, i: int)
    requires
        0 <= i <= t.len(),
        lex_at(r, t, i).0 matches Ok(tp) && tp.token is Eof,
    ensures
        lex_at(r, t, lex_at(r, t, i).1) == lex_at(r, t, i),
{
    lemma_skip_ws_bounds(t, i);
    lemma_skip_ws_stops(t, i);
}

/// The number of newlines in `s`.
pub open spec fn count_newlines(s: Seq<char>) -> int
    decreases s.len(),
{
    if s.len() == 0 {
        0
    } else {
        count_newlines(s.drop_last()) + if s.last() == '\n' {
            1int
        } else {
            0int
        }
    }
}

/// The index where the line holding index `i` starts: just after the last newline
/// before `i`, or 0.
pub open spec fn line_start(t: Seq<char>, i: int) -> int
    decreases i,
{
    if i <= 0 {
        0
    } else if t[i - 1] == '\n' {
        i
    } else {
        line_start(t, i - 1)
    }
}

/// The line of index `i` is one more than the number of newlines before it, and its
/// column is one more than the number of characters between the start of its line
/// and it.
pub proof fn lemma_position(t: Seq<char>, i: int)
    requires
        0 <= i <= t.len(),
    ensures
        pos_at(t, i) == (1 + count_newlines(t.take(i)), i - line_start(t, i) + 1),
    decreases i,
{
    if i > 0 {
        lemma_position(t, i - 1);
        assert(t.take(i).drop_last() =~= t.take(i - 1));
    }
}

/// The operator or delimited type that a symbol resolves to is the longest one among
/// the prefixes of the run: no longer prefix is an operator or a left delimiter. A
/// left delimiter is taken over an operator of the same text.
pub proof fn lemma_pick_longest(r: Rules, t: Seq<char>, s: int, m: int)
    ensures
        pick(r, t, s, m) matches Some(Pick::Op(i, len)) ==> {
            &&& op_lookup(r, t.subrange(s, s + len)) == Some(i)
            &&& dl_lookup(r, t.subrange(s, s + len)) is None
            &&& forall|l: int| len < l <= m ==> {
                &&& op_lookup(r, #[trigger] t.subrange(s, s + l)) is None
                &&& dl_lookup(r, t.subrange(s, s + l)) is None
            }
        },
        pick(r, t, s, m) matches Some(Pick::Delim(j, len)) ==> {
            &&& dl_lookup(r, t.subrange(s, s + len)) == Some(j)
            &&& forall|l: int| len < l <= m ==> {
                &&& op_lookup(r, #[trigger] t.subrange(s, s + l)) is None
                &&& dl_lookup(r, t.subrange(s, s + l)) is None
            }
        },
        pick(r, t, s, m) is None ==> forall|l: int| 1 <= l <= m ==> {
            &&& op_lookup(r, #[trigger] t.subrange(s, s + l)) is None
            &&& dl_lookup(r, t.subrange(s, s + l)) is None
        },
    decreases m,
{
    if m > 0 {
        lemma_pick_longest(r, t, s, m - 1);
    }
}

/// A delimited value ends at the first place where the text read after the left
/// delimiter ends with the right delimiter.
pub proof fn lemma_first_closing(t: Seq<char>, a: int, close: Seq<char>, b: int)
    ensures
        close_search(t, a, close, b) matches Some(e) ==> {
            &&& closes_at(t, a, close, e)
            &&& forall|x: int| b <= x < e ==> !#[trigger] closes_at(t, a, close, x)
        },
        close_search(t, a, close, b) is None && a + 1 <= b ==> forall|x: int|
            b <= x <= t.len() ==> !#[trigger] closes_at(t, a, close, x),
    decreases t.len() + 1 - b,
{
    if !(b < a + 1 || b > t.len()) && !closes_at(t, a, close, b) {
        lemma_first_closing(t, a, close, b + 1);
    }
}

/// The index reached after reading `k` tokens from index `i`.
pub open spec fn index_after(r: Rules, t: Seq<char>, i: int, k: nat) -> int
    decreases k,
{
    if k == 0 {
        i
    } else {
        lex_at(r, t, index_after(r, t, i, (k - 1) as nat)).1
    }
}

proof fn lemma_index_after_shift(r: Rules, t: Seq<char>, i: int, k: nat)
    ensures
        index_after(r, t, lex_at(r, t, i).1, k) == index_after(r, t, i, k + 1),
    decreases k,
{
    let j = lex_at(r, t, i).1;
    if k > 0 {
        lemma_index_after_shift(r, t, i, (k - 1) as nat);
        assert(index_after(r, t, j, k) == lex_at(r, t, index_after(r, t, j, (k - 1) as nat)).1);
        assert(((k + 1) - 1) as nat == k);
        assert(index_after(r, t, i, k + 1) == lex_at(r, t, index_after(r, t, i, k)).1);
    } else {
        assert(index_after(r, t, i, 1) == lex_at(r, t, index_after(r, t, i, 0)).1);
    }
}

/// Lexing the whole text gives, in order, the tokens that reading one token after
/// another from the start gives, and ends where the last of them ends.
pub proof fn lemma_run_is_repeated_reading(r: Rules, t: Seq<char>, i: int, n: nat)
    ensures
        lex_run(r, t, i, n) matches LexRun::Done(ts, end) ==> {
            &&& forall|k: int|
                0 <= k < ts.len() ==> #[trigger] lex_at(r, t, index_after(r, t, i, k as nat)).0 == Ok::<
                    TokenPosView,
                    LexerErrorView,
                >(ts[k])
            &&& end == index_after(r, t, i, ts.len())
        },
        lex_run(r, t, i, n) matches LexRun::Failed(e) ==> exists|k: nat|
            #[trigger] lex_at(r, t, index_after(r, t, i, k)).0 == Err::<TokenPosView, LexerErrorView>(e),
    decreases n,
{
    if n > 0 {
        let (out, j) = lex_at(r, t, i);
        if let Ok(tp) = out {
            if !(tp.token is Eof) {
                lemma_run_is_repeated_reading(r, t, j, (n - 1) as nat);
                match lex_run(r, t, j, (n - 1) as nat) {
                    LexRun::Done(ts, end) => {
                        let all = seq![tp] + ts;
                        assert forall|k: int| 0 <= k < all.len() implies #[trigger] lex_at(
                            r,
                            t,
                            index_after(r, t, i, k as nat),
                        ).0 == Ok::<TokenPosView, LexerErrorView>(all[k]) by {
                            if k > 0 {
                                lemma_index_after_shift(r, t, i, (k - 1) as nat);
                                assert(all[k] == ts[k - 1]);
                                assert(lex_at(r, t, index_after(r, t, j, (k - 1) as nat)).0 == Ok::<TokenPosView, LexerErrorView>(ts[k - 1]));
                            }
                        }
                        lemma_index_after_shift(r, t, i, ts.len());
                    },
                    LexRun::Failed(e) => {
                        let k = choose|k: nat| #[trigger] lex_at(r, t, index_after(r, t, j, k)).0 == Err::<TokenPosView, LexerErrorView>(e);
                        lemma_index_after_shift(r, t, i, k);
                        assert(lex_at(r, t, index_after(r, t, i, k + 1)).0 == Err::<TokenPosView, LexerErrorView>(e));
                    },
                    LexRun::Unfinished => {},
                }
            }
        } else {
            assert(lex_at(r, t, index_after(r, t, i, 0)).0 == out);
        }
    }
}

/// The operator or delimited type of a token is an entry of the rules' tables.
pub open spec fn token_in_range(v: TokenView, r: Rules) -> bool {
    match v {
        TokenView::Op(i) => 0 <= i < r.ops.len(),
        TokenView::Delimited(j, _) => 0 <= j < r.dls.len(),
        _ => true,
    }
}

/// Every token read names an operator or delimited type of the rules' tables.
pub proof fn lemma_lex_at_in_range(r: Rules, t: Seq<char>, i: int)
    ensures
        lex_at(r, t, i).0 matches Ok(tp) ==> token_in_range(tp.token, r),
{
    let s = skip_ws(t, i);
    if s < t.len() {
        let c = t[s];
        if is_token_start(r, c) && !is_numeric(c) && is_symbol_prefix(r, seq![c]) {
            let m = symbol_run(r, t, s, 1);
            lemma_pick_longest(r, t, s, m);
            match pick(r, t, s, m) {
                Some(Pick::Op(k, len)) => {
                    lemma_last_index_of(r.ops, t.subrange(s, s + len), r.ops.len() as int);
                },
                Some(Pick::Delim(k, len)) => {
                    lemma_last_index_of(lefts(r), t.subrange(s, s + len), r.dls.len() as int);
                },
                None => {},
            }
        }
    }
}

/// Every token of a finished run names an operator or delimited type of the rules'
/// tables.
pub proof fn lemma_run_in_range(r: Rules, t: Seq<char>, i: int, n: nat)
    ensures
        lex_run(r, t, i, n) matches LexRun::Done(ts, _) ==> forall|k: int|
            0 <= k < ts.len() ==> token_in_range(#[trigger] ts[k].token, r),
    decreases n,
{
    if n > 0 {
        lemma_lex_at_in_range(r, t, i);
        let (out, j) = lex_at(r, t, i);
        if let Ok(tp) = out {
            if !(tp.token is Eof) {
                lemma_run_in_range(r, t, j, (n - 1) as nat);
                if let LexRun::Done(ts, _) = lex_run(r, t, j, (n - 1) as nat) {
                    let all = seq![tp] + ts;
                    assert forall|k: int| 0 <= k < all.len() implies token_in_range(#[trigger] all[k].token, r) by {
                        if k > 0 {
                            assert(all[k] == ts[k - 1]);
                        }
                    }
                }
            }
        }
    }
}


proof fn lemma_ident_run(t: Seq<char>, i: int)
    requires
        0 <= i <= t.len(),
    ensures
        i <= ident_end(t, i) <= t.len(),
        forall|k: int| i <= k < ident_end(t, i) ==> is_alphanumeric(#[trigger] t[k]) || t[k] == '_',
        ident_end(t, i) == t.len() || !(is_alphanumeric(t[ident_end(t, i)]) || t[ident_end(t, i)] == '_'),
    decreases t.len() - i,
{
    if i < t.len() && is_identifier_char(t[i]) {
        lemma_ident_run(t, i + 1);
    }
}

/// An identifier is the whole run of identifier characters (alphanumeric or `_`) that
/// starts at `s`: its token holds that run, every character of it is an identifier
/// character, and the character after it, if any, is not one.
pub proof fn lemma_identifier_is_maximal_run(t: Seq<char>, s: int)
    requires
        0 <= s < t.len(),
        is_alphanumeric(t[s]) || t[s] == '_',
    ensures
        ({
            let (out, e) = lex_ident(t, s);
            &&& s < e <= t.len()
            &&& out == Ok::<TokenPosView, LexerErrorView>(
                token_at(TokenView::Ident(t.subrange(s, e)), pos_at(t, s)),
            )
            &&& forall|k: int| s <= k < e ==> is_alphanumeric(#[trigger] t[k]) || t[k] == '_'
            &&& e == t.len() || !(is_alphanumeric(t[e]) || t[e] == '_')
        }),
{
    lemma_ident_run(t, s);
    lemma_ident_run(t, s + 1);
}

/// A delimited value runs up to the first closing delimiter after the left one. When
/// the text read from `a` (at least one character) ends with `close` somewhere, the
/// token holds exactly the text between the delimiters (empty when the right
/// delimiter follows the left one at once), and reading stops just past the first
/// such end. Only when no such end exists is it a missing closing delimiter, and then
/// the whole text is read.
pub proof fn lemma_delimited_value(
    t: Seq<char>,
    a: int,
    j: int,
    open: Seq<char>,
    close: Seq<char>,
    p: (int, int),
)
    requires
        0 <= a <= t.len(),
    ensures
        (exists|b: int| a < b <= t.len() && b - a >= close.len() && #[trigger] t.subrange(b - close.len(), b) == close) ==> {
            let (out, e) = lex_delimited(t, a, j, open, close, p);
            &&& a < e <= t.len()
            &&& e - close.len() >= a
            &&& t.subrange(e - close.len(), e) == close
            &&& forall|b: int| a < b < e ==> !(b - a >= close.len() && #[trigger] t.subrange(b - close.len(), b) == close)
            &&& out == Ok::<TokenPosView, LexerErrorView>(
                token_at(TokenView::Delimited(j, t.subrange(a, e - close.len())), p),
            )
        },
        !(exists|b: int| a < b <= t.len() && b - a >= close.len() && #[trigger] t.subrange(b - close.len(), b) == close)
            ==> lex_delimited(t, a, j, open, close, p) == (
            Err::<TokenPosView, LexerErrorView>(
                LexerErrorView::MissingClosingDelimiter { open, expected: close, pos: p },
            ),
            t.len() as int,
        ),
{
    lemma_first_closing(t, a, close, a + 1);
    lemma_close_search_bounds(t, a, close, a + 1);
    if exists|b: int| a < b <= t.len() && b - a >= close.len() && #[trigger] t.subrange(b - close.len(), b) == close {
        let b = choose|b: int| a < b <= t.len() && b - a >= close.len() && #[trigger] t.subrange(b - close.len(), b) == close;
        assert(closes_at(t, a, close, b));
        assert(close_search(t, a, close, a + 1) is Some);
    }
    if let Some(e) = close_search(t, a, close, a + 1) {
        assert forall|b: int| a < b < e implies !(b - a >= close.len() && #[trigger] t.subrange(b - close.len(), b) == close) by {
            assert(!closes_at(t, a, close, b));
        }
    }
}


proof fn lemma_number_run(t: Seq<char>, i: int)
    requires
        0 <= i <= t.len(),
    ensures
        i <= number_end(t, i) <= t.len(),
        forall|k: int| i <= k < number_end(t, i) ==> is_numeric(#[trigger] t[k]) || t[k] == '.',
        number_end(t, i) == t.len() || !(is_numeric(t[number_end(t, i)]) || t[number_end(t, i)]
            == '.'),
    decreases t.len() - i,
{
    if i < t.len() && is_number_char(t[i]) {
        lemma_number_run(t, i + 1);
    }
}

/// A number literal is the whole run of numeric characters and dots that starts at
/// `s`: the character after it, if any, is neither. An integer token holds the value
/// of that literal, a float token the literal itself, and a parsing error that
/// literal.
pub proof fn lemma_number_is_maximal_run(t: Seq<char>, s: int)
    requires
        0 <= s < t.len(),
        is_numeric(t[s]),
    ensures
        ({
            let (out, e) = lex_number(t, s);
            let lit = t.subrange(s, e);
            &&& s < e <= t.len()
            &&& forall|k: int| s <= k < e ==> is_numeric(#[trigger] t[k]) || t[k] == '.'
            &&& e == t.len() || !(is_numeric(t[e]) || t[e] == '.')
            &&& match out {
                Ok(tp) => {
                    &&& tp.pos == Some(pos_at(t, s))
                    &&& match tp.token {
                        TokenView::Int(v) => !lit.contains('.') && unsigned_i64(lit) == Some(v),
                        TokenView::Float(f) => lit.contains('.') && f == lit && is_float_literal(
                            lit,
                        ),
                        _ => false,
                    }
                },
                Err(err) => match err {
                    LexerErrorView::IntegerParsingError { text, pos } => !lit.contains('.')
                        && unsigned_i64(lit) is None && text == lit && pos == pos_at(t, s),
                    LexerErrorView::FloatParsingError { text, pos } => lit.contains('.')
                        && !is_float_literal(lit) && text == lit && pos == pos_at(t, s),
                    _ => false,
                },
            }
        }),
{
    lemma_number_run(t, s);
    lemma_number_run(t, s + 1);
}

/// Whitespace before a token is skipped whole: every character skipped is
/// whitespace, and the character where skipping stops, if any, is not.
pub proof fn lemma_whitespace_skipped(t: Seq<char>, i: int)
    requires
        0 <= i <= t.len(),
    ensures
        i <= skip_ws(t, i) <= t.len(),
        forall|k: int| i <= k < skip_ws(t, i) ==> is_whitespace(#[trigger] t[k]),
        skip_ws(t, i) == t.len() || !is_whitespace(t[skip_ws(t, i)]),
    decreases t.len() - i,
{
    if i < t.len() && is_whitespace(t[i]) {
        lemma_whitespace_skipped(t, i + 1);
    }
}

} // verus!
