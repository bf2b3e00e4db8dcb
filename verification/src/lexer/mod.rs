//! The lexer: converts raw text into tokens defined by an operator and a delimiter type.

pub mod chars;
pub mod default_types;
pub mod number;
pub mod semantics;
pub mod token;

use vstd::prelude::*;
use crate::error::{LexerError, LexerErrorView, LexerResult};
use self::chars::{
    char_is_numeric, char_is_whitespace, chars_of, string_from_chars, string_prefixes,
    valid_identifier_char,
};
use self::default_types::{DefaultOperators, Delimiter, NullDelimiter, Operator};
use self::number::{check_float_literal, parse_unsigned_i64};
use self::semantics::{
    close_search, closes_at, delimiter_has_char, dl_lookup, ident_end, is_symbol_prefix,
    is_token_start, is_valid_symbol_char, last_index_of, lefts, lemma_last_index_of,
    lemma_lex_at_in_range, lemma_lex_at_progress, lemma_lex_terminates, lemma_pos_bounds, lemma_run_ends_with_eof,
    lemma_run_in_range, lex_all_outcome, lex_at, lex_delimited, lex_ident, lex_number, lex_run,
    lex_symbol, number_end, pick, pos_at, prepend, skip_ws, stuck_text, symbol_run, token_in_range, LexRun,
    Outcome, Pick, Rules,
};
use self::token::{clones_exactly, token_pos_agrees, TextPos, Token, TokenPos, TokenPosView, TokenView};

verus! {

/// The character sequences held by a table of character vectors.
pub open spec fn views(v: Seq<Vec<char>>) -> Seq<Seq<char>> {
    v.map_values(|x: Vec<char>| x@)
}

/// The character at index `i`, if there is one.
pub open spec fn char_at(t: Seq<char>, i: int) -> Option<char> {
    if 0 <= i < t.len() {
        Some(t[i])
    } else {
        None
    }
}

/// The lexer's result `res` is the outcome `out`, given the lexer's operators `ops`
/// and delimited values `dls`.
pub open spec fn outcome_agrees<O, D: Delimiter>(
    res: LexerResult<TokenPos<O, D>>,
    out: Outcome,
    ops: Seq<O>,
    dls: Seq<D>,
) -> bool {
    match res {
        Ok(tp) => out matches Ok(v) && token_pos_agrees(tp, v, ops, dls),
        Err(e) => out matches Err(ev) && e@ == ev,
    }
}

/// A token as read from the text: operators and delimited types by the index of their
/// entry in the lexer's tables, delimited text as read.
#[derive(Debug)]
enum RawToken {
    Int(i64),
    Float(String),
    Ident(String),
    Op(usize),
    Delimited(usize, String),
    Eof,
}

/// A read token with its position.
#[derive(Debug)]
struct RawTokenPos {
    token: RawToken,
    pos: Option<TextPos>,
}

impl View for RawTokenPos {
    type V = TokenPosView;

    closed spec fn view(&self) -> TokenPosView {
        TokenPosView {
            token: match self.token {
                RawToken::Int(i) => TokenView::Int(i),
                RawToken::Float(s) => TokenView::Float(s@),
                RawToken::Ident(s) => TokenView::Ident(s@),
                RawToken::Op(i) => TokenView::Op(i as int),
                RawToken::Delimited(j, s) => TokenView::Delimited(j as int, s@),
                RawToken::Eof => TokenView::Eof,
            },
            pos: match self.pos {
                Some(p) => Some(p@),
                None => None,
            },
        }
    }
}

/// The outcome that a read result stands for.
spec fn raw_outcome(r: LexerResult<RawTokenPos>) -> Outcome {
    match r {
        Ok(t) => Ok(t@),
        Err(e) => Err(e@),
    }
}

/// The tokens that a list of read tokens stands for.
spec fn raw_views(v: Seq<RawTokenPos>) -> Seq<TokenPosView> {
    v.map_values(|t: RawTokenPos| t@)
}

/// A copy of a read token.
fn copy_raw_token(t: &RawTokenPos) -> (r: RawTokenPos)
    ensures
        r == *t,
{
    let token = match &t.token {
        RawToken::Int(i) => RawToken::Int(*i),
        RawToken::Float(s) => RawToken::Float(copy_string(s)),
        RawToken::Ident(s) => RawToken::Ident(copy_string(s)),
        RawToken::Op(i) => RawToken::Op(*i),
        RawToken::Delimited(j, s) => RawToken::Delimited(*j, copy_string(s)),
        RawToken::Eof => RawToken::Eof,
    };
    RawTokenPos { token, pos: t.pos }
}

/// A copy of a list of read tokens.
fn copy_raw_tokens(v: &Vec<RawTokenPos>) -> (r: Vec<RawTokenPos>)
    ensures
        r@ == v@,
{
    let mut r: Vec<RawTokenPos> = Vec::new();
    let mut i: usize = 0;
    while i < v.len()
        invariant
            i <= v@.len(),
            r@ == v@.take(i as int),
        decreases v@.len() - i,
    {
        let c = copy_raw_token(&v[i]);
        r.push(c);
        assert(r@ =~= v@.take(i + 1));
        i = i + 1;
    }
    assert(v@.take(v@.len() as int) =~= v@);
    r
}

/// The text being lexed, as given and as characters.
#[derive(Debug)]
struct Source {
    text: String,
    chars: Vec<char>,
}

/// The index of the next character to read, and its position.
#[derive(Clone, Copy, Debug)]
struct Cursor {
    index: usize,
    pos: TextPos,
}

/// Lexer for converting raw text into tokens defined by the [`Operator`] and
/// [`Delimiter`] types.
///
/// - `O` - the operator type, which says how operators are recognised.
/// - `D` - the delimiter type, which says how delimited types (text between a left
///   and a right delimiter, like `"strings"`) are recognised.
#[derive(Debug)]
pub struct Lexer<O, D = NullDelimiter> {
    operators: Vec<O>,
    op_symbols: Vec<Vec<char>>,
    delims: Vec<D>,
    dl_left: Vec<Vec<char>>,
    dl_right: Vec<Vec<char>>,
    valid_symbol_chars: Vec<char>,
    symbol_prefixes: Vec<Vec<char>>,
    source: Source,
    cursor: Cursor,
    current_err: Option<LexerError>,
    cached_tokens: Option<Vec<RawTokenPos>>,
}

/// Membership in a concatenation.
proof fn lemma_concat_contains<A>(a: Seq<A>, b: Seq<A>, x: A)
    ensures
        (a + b).contains(x) <==> (a.contains(x) || b.contains(x)),
{
    if (a + b).contains(x) {
        let k = choose|k: int| 0 <= k < (a + b).len() && (a + b)[k] == x;
        if k < a.len() {
            assert(a[k] == x);
        } else {
            assert(b[k - a.len()] == x);
        }
    }
    if a.contains(x) {
        let k = choose|k: int| 0 <= k < a.len() && a[k] == x;
        assert((a + b)[k] == x);
    }
    if b.contains(x) {
        let k = choose|k: int| 0 <= k < b.len() && b[k] == x;
        assert((a + b)[k + a.len()] == x);
    }
}

/// Add the characters of `s` to the table `set`.
fn add_chars(set: &mut Vec<char>, s: &Vec<char>)
    ensures
        final(set)@ == old(set)@ + s@,
{
    let ghost start = set@;
    let mut i: usize = 0;
    while i < s.len()
        invariant
            i <= s@.len(),
            set@ == start + s@.take(i as int),
        decreases s@.len() - i,
    {
        set.push(s[i]);
        assert(start + s@.take(i + 1) == (start + s@.take(i as int)).push(s@[i as int]));
        i = i + 1;
    }
    assert(s@.take(s@.len() as int) == s@);
}

/// All the characters of a table of strings, one string after the other.
pub open spec fn flat(ss: Seq<Seq<char>>) -> Seq<char>
    decreases ss.len(),
{
    if ss.len() == 0 {
        Seq::empty()
    } else {
        flat(ss.drop_last()) + ss.last()
    }
}

/// The non-empty prefixes of `s`, shortest first.
pub open spec fn prefix_list(s: Seq<char>) -> Seq<Seq<char>> {
    Seq::new(s.len(), |i: int| s.take(i + 1))
}

/// The non-empty prefixes of each string of a table, one string after the other.
pub open spec fn prefix_table(ss: Seq<Seq<char>>) -> Seq<Seq<char>>
    decreases ss.len(),
{
    if ss.len() == 0 {
        Seq::empty()
    } else {
        prefix_table(ss.drop_last()) + prefix_list(ss.last())
    }
}

/// The right delimiters, in table order.
pub open spec fn rights(r: Rules) -> Seq<Seq<char>> {
    Seq::new(r.dls.len(), |j: int| r.dls[j].1)
}

proof fn lemma_flat_contains(ss: Seq<Seq<char>>, c: char)
    ensures
        flat(ss).contains(c) <==> exists|i: int| 0 <= i < ss.len() && #[trigger] ss[i].contains(c),
    decreases ss.len(),
{
    if ss.len() > 0 {
        lemma_flat_contains(ss.drop_last(), c);
        lemma_concat_contains(flat(ss.drop_last()), ss.last(), c);
        if exists|i: int| 0 <= i < ss.len() && #[trigger] ss[i].contains(c) {
            let i = choose|i: int| 0 <= i < ss.len() && #[trigger] ss[i].contains(c);
            if i < ss.len() - 1 {
                assert(ss.drop_last()[i].contains(c));
            }
        }
        if exists|i: int| 0 <= i < ss.drop_last().len() && #[trigger] ss.drop_last()[i].contains(c) {
            let i = choose|i: int| 0 <= i < ss.drop_last().len() && #[trigger] ss.drop_last()[i].contains(c);
            assert(ss[i].contains(c));
        }
    }
}

proof fn lemma_prefix_list_contains(s: Seq<char>, p: Seq<char>)
    ensures
        prefix_list(s).contains(p) <==> (p.len() > 0 && p.is_prefix_of(s)),
{
    if prefix_list(s).contains(p) {
        let k = choose|k: int| 0 <= k < prefix_list(s).len() && prefix_list(s)[k] == p;
        assert(p == s.take(k + 1));
        assert(p =~= s.subrange(0, p.len() as int));
    }
    if p.len() > 0 && p.is_prefix_of(s) {
        let k = p.len() - 1;
        assert(prefix_list(s)[k] =~= p);
    }
}

proof fn lemma_prefix_table_contains(ss: Seq<Seq<char>>, p: Seq<char>)
    ensures
        prefix_table(ss).contains(p) <==> (p.len() > 0 && exists|i: int|
            0 <= i < ss.len() && p.is_prefix_of(#[trigger] ss[i])),
    decreases ss.len(),
{
    if ss.len() > 0 {
        lemma_prefix_table_contains(ss.drop_last(), p);
        lemma_concat_contains(prefix_table(ss.drop_last()), prefix_list(ss.last()), p);
        lemma_prefix_list_contains(ss.last(), p);
        if p.len() > 0 && exists|i: int| 0 <= i < ss.len() && p.is_prefix_of(#[trigger] ss[i]) {
            let i = choose|i: int| 0 <= i < ss.len() && p.is_prefix_of(#[trigger] ss[i]);
            if i < ss.len() - 1 {
                assert(p.is_prefix_of(ss.drop_last()[i]));
            }
        }
        if p.len() > 0 && exists|i: int|
            0 <= i < ss.drop_last().len() && p.is_prefix_of(#[trigger] ss.drop_last()[i]) {
            let i = choose|i: int|
                0 <= i < ss.drop_last().len() && p.is_prefix_of(#[trigger] ss.drop_last()[i]);
            assert(p.is_prefix_of(ss[i]));
        }
    }
}

/// The table of symbol characters built from the operators, the left delimiters and
/// the right delimiters holds exactly the symbol characters of the rules.
proof fn lemma_symbol_chars_table(r: Rules, c: char)
    ensures
        (flat(r.ops) + flat(lefts(r)) + flat(rights(r))).contains(c) <==> is_valid_symbol_char(r, c),
{
    lemma_concat_contains(flat(r.ops) + flat(lefts(r)), flat(rights(r)), c);
    lemma_concat_contains(flat(r.ops), flat(lefts(r)), c);
    lemma_flat_contains(r.ops, c);
    lemma_flat_contains(lefts(r), c);
    lemma_flat_contains(rights(r), c);
    if exists|j: int| 0 <= j < lefts(r).len() && #[trigger] lefts(r)[j].contains(c) {
        let j = choose|j: int| 0 <= j < lefts(r).len() && #[trigger] lefts(r)[j].contains(c);
        assert(delimiter_has_char(r, j, c));
    }
    if exists|j: int| 0 <= j < rights(r).len() && #[trigger] rights(r)[j].contains(c) {
        let j = choose|j: int| 0 <= j < rights(r).len() && #[trigger] rights(r)[j].contains(c);
        assert(delimiter_has_char(r, j, c));
    }
    if exists|j: int| 0 <= j < r.dls.len() && #[trigger] delimiter_has_char(r, j, c) {
        let j = choose|j: int| 0 <= j < r.dls.len() && #[trigger] delimiter_has_char(r, j, c);
        assert(lefts(r)[j] == r.dls[j].0);
        assert(rights(r)[j] == r.dls[j].1);
        if r.dls[j].0.contains(c) {
            assert(lefts(r)[j].contains(c));
        } else {
            assert(rights(r)[j].contains(c));
        }
    }
}

/// The table of prefixes built from the operators and the left delimiters holds
/// exactly the symbol prefixes of the rules.
proof fn lemma_symbol_prefix_table(r: Rules, p: Seq<char>)
    ensures
        (prefix_table(r.ops) + prefix_table(lefts(r))).contains(p) <==> is_symbol_prefix(r, p),
{
    lemma_concat_contains(prefix_table(r.ops), prefix_table(lefts(r)), p);
    lemma_prefix_table_contains(r.ops, p);
    lemma_prefix_table_contains(lefts(r), p);
    if p.len() > 0 && exists|j: int| 0 <= j < lefts(r).len() && p.is_prefix_of(#[trigger] lefts(r)[j]) {
        let j = choose|j: int| 0 <= j < lefts(r).len() && p.is_prefix_of(#[trigger] lefts(r)[j]);
        assert(p.is_prefix_of(r.dls[j].0));
    }
    if p.len() > 0 && exists|j: int| 0 <= j < r.dls.len() && p.is_prefix_of(#[trigger] r.dls[j].0) {
        let j = choose|j: int| 0 <= j < r.dls.len() && p.is_prefix_of(#[trigger] r.dls[j].0);
        assert(p.is_prefix_of(lefts(r)[j]));
    }
}

/// Add the non-empty prefixes of `s` to the table `table`.
fn add_prefixes(table: &mut Vec<Vec<char>>, s: &String)
    ensures
        views(final(table)@) == views(old(table)@) + prefix_list(s@),
{
    let ps = string_prefixes(s);
    let ghost start = views(table@);
    let mut i: usize = 0;
    while i < ps.len()
        invariant
            i <= ps@.len(),
            ps@.len() == s@.len(),
            forall|k: int| 0 <= k < ps@.len() ==> #[trigger] ps@[k]@ == s@.take(k + 1),
            views(table@) == start + prefix_list(s@).take(i as int),
        decreases ps@.len() - i,
    {
        let p = chars_of(ps[i].as_str());
        let ghost before = table@;
        table.push(p);
        assert(table@ == before.push(p));
        assert(views(table@) =~= views(before).push(p@));
        assert(p@ == s@.take(i + 1));
        assert(prefix_list(s@).take(i + 1) =~= prefix_list(s@).take(i as int).push(s@.take(i + 1)));
        assert(views(table@) =~= start + prefix_list(s@).take(i + 1));
        i = i + 1;
    }
    assert(prefix_list(s@).take(ps@.len() as int) =~= prefix_list(s@));
}

/// `s` is a text that `Operator::symbol` may give for the operator value `o`.
pub open spec fn symbol_of<O: Operator>(o: O, s: String) -> bool {
    call_ensures(O::symbol, (&o,), s)
}

/// `found` is what `Delimiter::delimiters` may give for the delimited value `d`.
pub open spec fn delimiters_of<D: Delimiter>(d: D, found: Option<(String, String)>) -> bool {
    call_ensures(D::delimiters, (&d,), found)
}

/// The delimited values that have delimiters, in order.
pub open spec fn kept_values<D>(ds: Seq<D>, found: Seq<Option<(String, String)>>) -> Seq<D>
    decreases ds.len(),
{
    if ds.len() == 0 || found.len() == 0 {
        Seq::empty()
    } else {
        let rest = kept_values(ds.drop_last(), found.drop_last());
        if found.last() is Some {
            rest.push(ds.last())
        } else {
            rest
        }
    }
}

/// The left and right delimiters that were found, in order.
pub open spec fn kept_delimiters(found: Seq<Option<(String, String)>>) -> Seq<
    (Seq<char>, Seq<char>),
>
    decreases found.len(),
{
    if found.len() == 0 {
        Seq::empty()
    } else {
        let rest = kept_delimiters(found.drop_last());
        match found.last() {
            Some((l, r)) => rest.push((l@, r@)),
            None => rest,
        }
    }
}

/// The rules held in a lexer's tables of operator texts and of left and right
/// delimiters.
spec fn table_rules(ops: Seq<Vec<char>>, lefts: Seq<Vec<char>>, rights: Seq<Vec<char>>) -> Rules {
    Rules { ops: views(ops), dls: Seq::new(lefts.len(), |j: int| (lefts[j]@, rights[j]@)) }
}

/// The rules given by a table of operators and a table of delimited types.
pub open spec fn rules_from<O, D>(ops: Seq<(String, O)>, dls: Seq<(String, String, D)>) -> Rules {
    Rules {
        ops: ops.map_values(|p: (String, O)| p.0@),
        dls: dls.map_values(|d: (String, String, D)| (d.0@, d.1@)),
    }
}

impl<O, D> Lexer<O, D> {
    /// The rules this lexer works with.
    pub closed spec fn rules(&self) -> Rules {
        table_rules(self.op_symbols@, self.dl_left@, self.dl_right@)
    }

    /// The operator values, in the order of the rules' operator table.
    pub closed spec fn operators(&self) -> Seq<O> {
        self.operators@
    }

    /// The values of the delimited types, in the order of the rules' delimiter table;
    /// each delimited token is made from a clone of one of them.
    pub closed spec fn delimiters(&self) -> Seq<D> {
        self.delims@
    }

    /// The text being lexed.
    pub closed spec fn input(&self) -> Seq<char> {
        self.source.text@
    }

    /// The index in the text of the next character to read.
    pub closed spec fn index(&self) -> int {
        self.cursor.index as int
    }

    /// The error met while lexing the current text, if any; it is returned again until
    /// the text is set anew.
    pub closed spec fn error(&self) -> Option<LexerErrorView> {
        match self.current_err {
            Some(e) => Some(e@),
            None => None,
        }
    }

    /// Whether the tokens of the whole text have been kept.
    pub closed spec fn has_cache(&self) -> bool {
        self.cached_tokens is Some
    }

    spec fn tables_ok(&self) -> bool {
        &&& self.op_symbols@.len() == self.operators@.len()
        &&& self.dl_left@.len() == self.delims@.len()
        &&& self.dl_right@.len() == self.delims@.len()
        &&& forall|c: char| #[trigger]
            self.valid_symbol_chars@.contains(c) <==> is_valid_symbol_char(self.rules(), c)
        &&& forall|p: Seq<char>| #[trigger]
            views(self.symbol_prefixes@).contains(p) <==> is_symbol_prefix(self.rules(), p)
    }

    spec fn cursor_ok(&self) -> bool {
        &&& self.source.chars@ == self.source.text@
        &&& self.source.chars@.len() < usize::MAX
        &&& self.cursor.index <= self.source.chars@.len()
        &&& self.cursor.pos@ == pos_at(self.source.chars@, self.cursor.index as int)
    }

    spec fn cache_ok(&self) -> bool {
        match self.cached_tokens {
            None => true,
            Some(v) => match lex_all_outcome(self.rules(), self.source.chars@) {
                LexRun::Done(ts, _) => raw_views(v@) == ts,
                _ => false,
            },
        }
    }

    /// The lexer's tables agree with its rules, its position with its text, and its
    /// kept tokens with the whole text.
    #[verifier::type_invariant]
    spec fn wf(&self) -> bool {
        &&& self.tables_ok()
        &&& self.cursor_ok()
        &&& self.cache_ok()
    }

    spec fn unchanged_but_cursor(&self, before: &Self) -> bool {
        &&& self.operators == before.operators
        &&& self.op_symbols == before.op_symbols
        &&& self.delims == before.delims
        &&& self.dl_left == before.dl_left
        &&& self.dl_right == before.dl_right
        &&& self.valid_symbol_chars == before.valid_symbol_chars
        &&& self.symbol_prefixes == before.symbol_prefixes
        &&& self.source == before.source
        &&& self.current_err == before.current_err
        &&& self.cached_tokens == before.cached_tokens
    }
}

impl<O: Operator, D: Delimiter> Lexer<O, D> {
    /// The lexer's tables are those built from the operator values `vs` that
    /// `Operator::variants` gave, with the texts `texts` that `Operator::symbol` gave for
    /// them, and from the delimited values `ds` that `Delimiter::variants` gave, of which
    /// those kept are the ones for which `Delimiter::delimiters` gave delimiters (`found`).
    pub open spec fn built_from(
        &self,
        vs: Vec<O>,
        texts: Seq<String>,
        ds: Vec<D>,
        found: Seq<Option<(String, String)>>,
    ) -> bool {
        &&& call_ensures(O::variants, (), vs)
        &&& self.operators() == vs@
        &&& texts.len() == vs@.len()
        &&& self.rules().ops.len() == vs@.len()
        &&& forall|i: int|
            0 <= i < vs@.len() ==> symbol_of(vs@[i], #[trigger] texts[i]) && texts[i]@
                == self.rules().ops[i]
        &&& call_ensures(D::variants, (), ds)
        &&& found.len() == ds@.len()
        &&& forall|k: int| 0 <= k < ds@.len() ==> delimiters_of(ds@[k], #[trigger] found[k])
        &&& self.delimiters() == kept_values(ds@, found)
        &&& self.rules().dls == kept_delimiters(found)
    }
}

/// Two answers of `Delimiter::delimiters` that say the same: both none, or the same
/// left and right delimiters.
pub open spec fn same_delimiters(a: Option<(String, String)>, b: Option<(String, String)>) -> bool {
    match (a, b) {
        (None, None) => true,
        (Some((l1, r1)), Some((l2, r2))) => l1@ == l2@ && r1@ == r2@,
        _ => false,
    }
}

proof fn lemma_kept_same<D>(
    ds: Seq<D>,
    f1: Seq<Option<(String, String)>>,
    f2: Seq<Option<(String, String)>>,
)
    requires
        f1.len() == ds.len(),
        f2.len() == ds.len(),
        forall|k: int| 0 <= k < ds.len() ==> same_delimiters(#[trigger] f1[k], f2[k]),
    ensures
        kept_values(ds, f1) == kept_values(ds, f2),
        kept_delimiters(f1) == kept_delimiters(f2),
    decreases ds.len(),
{
    if ds.len() > 0 {
        let n = ds.len() - 1;
        assert(same_delimiters(f1[n], f2[n]));
        lemma_kept_same(ds.drop_last(), f1.drop_last(), f2.drop_last());
    }
}

/// Lexers that `new` builds have the same tables, operator values and delimited values
/// when the methods of `Operator` and `Delimiter` that it calls answer alike on alike
/// arguments.
pub proof fn lemma_built_alike<O: Operator, D: Delimiter>(
    a: Lexer<O, D>,
    b: Lexer<O, D>,
    vs1: Vec<O>,
    texts1: Seq<String>,
    ds1: Vec<D>,
    found1: Seq<Option<(String, String)>>,
    vs2: Vec<O>,
    texts2: Seq<String>,
    ds2: Vec<D>,
    found2: Seq<Option<(String, String)>>,
)
    requires
        a.built_from(vs1, texts1, ds1, found1),
        b.built_from(vs2, texts2, ds2, found2),
        forall|x: Vec<O>, y: Vec<O>|
            #![trigger call_ensures(O::variants, (), x), call_ensures(O::variants, (), y)]
            call_ensures(O::variants, (), x) && call_ensures(O::variants, (), y) ==> x@ == y@,
        forall|o: O, s1: String, s2: String|
            #![trigger symbol_of(o, s1), symbol_of(o, s2)]
            symbol_of(o, s1) && symbol_of(o, s2) ==> s1@ == s2@,
        forall|x: Vec<D>, y: Vec<D>|
            #![trigger call_ensures(D::variants, (), x), call_ensures(D::variants, (), y)]
            call_ensures(D::variants, (), x) && call_ensures(D::variants, (), y) ==> x@ == y@,
        forall|d: D, f1: Option<(String, String)>, f2: Option<(String, String)>|
            #![trigger delimiters_of(d, f1), delimiters_of(d, f2)]
            delimiters_of(d, f1) && delimiters_of(d, f2) ==> same_delimiters(f1, f2),
    ensures
        a.rules() == b.rules(),
        a.operators() == b.operators(),
        a.delimiters() == b.delimiters(),
{
    assert(vs1@ == vs2@);
    assert(ds1@ == ds2@);
    assert(a.rules().ops =~= b.rules().ops) by {
        assert forall|i: int| 0 <= i < vs1@.len() implies a.rules().ops[i] == b.rules().ops[i] by {
            assert(symbol_of(vs1@[i], texts1[i]));
            assert(symbol_of(vs2@[i], texts2[i]));
        }
    }
    assert forall|k: int| 0 <= k < ds1@.len() implies same_delimiters(#[trigger] found1[k], found2[k]) by {
        assert(delimiters_of(ds1@[k], found1[k]));
        assert(delimiters_of(ds2@[k], found2[k]));
    }
    lemma_kept_same(ds1@, found1, found2);
    assert(a.rules() == b.rules());
}

/// The lexer that `new` builds for the default operators and the null delimiter has
/// the default rules, every default operator in order, and no delimited type.
pub proof fn lemma_built_default(
    r: Lexer<DefaultOperators, NullDelimiter>,
    vs: Vec<DefaultOperators>,
    texts: Seq<String>,
    ds: Vec<NullDelimiter>,
    found: Seq<Option<(String, String)>>,
)
    requires
        r.built_from(vs, texts, ds, found),
    ensures
        r.rules() == default_rules(),
        r.operators() == DefaultOperators::all(),
        r.delimiters().len() == 0,
{
    assert(vs@ == DefaultOperators::all());
    assert(ds@.len() == 0);
    assert(found.len() == 0);
    assert(r.rules().dls =~= default_rules().dls);
    assert forall|i: int| 0 <= i < r.rules().ops.len() implies r.rules().ops[i]
        == default_rules().ops[i] by {
        assert(symbol_of(vs@[i], texts[i]));
    }
    assert(r.rules().ops =~= default_rules().ops);
}

impl<O: Operator, D: Delimiter> Lexer<O, D> {
    /// Initialize an empty lexer with the given operator and delimited types: their
    /// tables come from `Operator::variants` and `Operator::symbol`, and from
    /// `Delimiter::variants` and `Delimiter::delimiters`.
    pub fn new() -> (r: Self)
        ensures
            exists|
                vs: Vec<O>,
                texts: Seq<String>,
                ds: Vec<D>,
                found: Seq<Option<(String, String)>>,
            | #[trigger] r.built_from(vs, texts, ds, found),
            r.input().len() == 0,
            r.index() == 0,
            r.error() is None,
            !r.has_cache(),
    {
        let variants = O::variants();
        let mut operators: Vec<(String, O)> = Vec::new();
        let mut i: usize = 0;
        while i < variants.len()
            invariant
                i <= variants@.len(),
                operators@.len() == i,
                forall|k: int|
                    0 <= k < i ==> (#[trigger] operators@[k]).1 == variants@[k] && symbol_of(
                        variants@[k],
                        operators@[k].0,
                    ),
            decreases variants@.len() - i,
        {
            let o = variants[i];
            let sym = o.symbol();
            let ghost before = operators@;
            operators.push((sym, o));
            assert(operators@ == before.push((sym, o)));
            i = i + 1;
        }
        let ghost ops_in = operators@;
        let mut kinds = D::variants();
        let ghost ds_vec = kinds;
        let ghost ds = kinds@;
        let mut delimiters: Vec<(String, String, D)> = Vec::new();
        let ghost mut found: Seq<Option<(String, String)>> = Seq::empty();
        proof {
            assert(ds.skip(0) =~= ds);
            assert(delimiters@.map_values(|d: (String, String, D)| d.2) =~= Seq::<D>::empty());
            assert(delimiters@.map_values(|d: (String, String, D)| (d.0@, d.1@)) =~= Seq::<
                (Seq<char>, Seq<char>),
            >::empty());
        }
        while kinds.len() > 0
            invariant
                found.len() <= ds.len(),
                kinds@ == ds.skip(found.len() as int),
                forall|k: int| 0 <= k < found.len() ==> delimiters_of(ds[k], #[trigger] found[k]),
                delimiters@.map_values(|d: (String, String, D)| d.2) == kept_values(ds.take(found.len() as int), found),
                delimiters@.map_values(|d: (String, String, D)| (d.0@, d.1@)) == kept_delimiters(found),
            decreases kinds@.len(),
        {
            let ghost k = found.len() as int;
            let d = kinds.remove(0);
            assert(d == ds[k]);
            let res = d.delimiters();
            let ghost before = delimiters@;
            let ghost old_found = found;
            proof {
                found = found.push(res);
                assert(found.drop_last() =~= old_found);
                assert(ds.take(k + 1).drop_last() =~= ds.take(k));
                assert(delimiters_of(ds[k], found[k]));
            }
            match res {
                Some((l, r)) => {
                    delimiters.push((l, r, d));
                    proof {
                        assert(delimiters@ == before.push((l, r, d)));
                        assert(delimiters@.map_values(|x: (String, String, D)| x.2) =~= before.map_values(
                            |x: (String, String, D)| x.2,
                        ).push(d));
                        assert(delimiters@.map_values(|x: (String, String, D)| (x.0@, x.1@))
                            =~= before.map_values(|x: (String, String, D)| (x.0@, x.1@)).push((l@, r@)));
                    }
                },
                None => {},
            }
            proof {
                assert(kinds@ =~= ds.skip(k + 1));
            }
        }
        assert(ds.take(found.len() as int) =~= ds);
        let r = Self::with_rules(operators, delimiters);
        let ghost texts = ops_in.map_values(|p: (String, O)| p.0);
        proof {
            assert(r.operators() =~= variants@);
            assert forall|q: int| 0 <= q < variants@.len() implies symbol_of(variants@[q], #[trigger] texts[q])
                && texts[q]@ == r.rules().ops[q] by {
                assert(symbol_of(variants@[q], ops_in[q].0));
            }
            assert(r.rules().dls =~= delimiters@.map_values(|d: (String, String, D)| (d.0@, d.1@)));
            assert(call_ensures(O::variants, (), variants));
            assert(call_ensures(D::variants, (), ds_vec));
            assert(ds_vec@ == ds);
            assert(r.built_from(variants, texts, ds_vec, found));
        }
        r
    }

    /// A lexer with no text for the given operator table (each operator's text and
    /// value) and delimiter table (each delimited type's left and right delimiter and
    /// the value that its tokens are made from).
    pub fn with_rules(operators: Vec<(String, O)>, delimiters: Vec<(String, String, D)>) -> (r:
        Self)
        ensures
            r.rules() == rules_from(operators@, delimiters@),
            r.operators() == operators@.map_values(|p: (String, O)| p.1),
            r.delimiters() == delimiters@.map_values(|d: (String, String, D)| d.2),
            r.input().len() == 0,
            r.index() == 0,
            r.error() is None,
            !r.has_cache(),
    {
        let ghost ops_in = operators@;
        let ghost dls_in = delimiters@;
        let ghost rr = rules_from(ops_in, dls_in);
        let mut rest = operators;
        let mut ops: Vec<O> = Vec::new();
        let mut op_symbols: Vec<Vec<char>> = Vec::new();
        let mut valid: Vec<char> = Vec::new();
        let mut prefixes: Vec<Vec<char>> = Vec::new();
        let ghost mut k: int = 0;
        assert(ops_in.skip(0) =~= ops_in);
        assert(rr.ops.take(0) =~= Seq::<Seq<char>>::empty());
        assert(ops_in.take(0).map_values(|p: (String, O)| p.1) =~= Seq::<O>::empty());
        assert(views(op_symbols@) =~= Seq::<Seq<char>>::empty());
        while rest.len() > 0
            invariant
                0 <= k <= ops_in.len(),
                rr == rules_from(ops_in, dls_in),
                rest@ == ops_in.skip(k),
                ops@ == ops_in.take(k).map_values(|p: (String, O)| p.1),
                views(op_symbols@) == rr.ops.take(k),
                valid@ == flat(rr.ops.take(k)),
                views(prefixes@) == prefix_table(rr.ops.take(k)),
            decreases rest@.len(),
        {
            let (sym, o) = rest.remove(0);
            assert(ops_in[k] == (sym, o));
            let cs = chars_of(sym.as_str());
            add_chars(&mut valid, &cs);
            add_prefixes(&mut prefixes, &sym);
            let ghost before = op_symbols@;
            op_symbols.push(cs);
            ops.push(o);
            proof {
                assert(rr.ops.take(k + 1).drop_last() =~= rr.ops.take(k));
                assert(rr.ops.take(k + 1).last() == sym@);
                assert(views(op_symbols@) =~= views(before).push(cs@));
                assert(views(op_symbols@) =~= rr.ops.take(k + 1));
                assert(ops@ =~= ops_in.take(k + 1).map_values(|p: (String, O)| p.1));
                assert(rest@ =~= ops_in.skip(k + 1));
                k = k + 1;
            }
        }
        assert(ops_in.take(k) =~= ops_in);
        assert(rr.ops.take(k) =~= rr.ops);

        let mut rest_dls = delimiters;
        let mut delims: Vec<D> = Vec::new();
        let mut dl_left: Vec<Vec<char>> = Vec::new();
        let mut dl_right: Vec<Vec<char>> = Vec::new();
        let mut right_chars: Vec<char> = Vec::new();
        let mut left_prefixes: Vec<Vec<char>> = Vec::new();
        let ghost mut m: int = 0;
        assert(dls_in.skip(0) =~= dls_in);
        assert(lefts(rr).take(0) =~= Seq::<Seq<char>>::empty());
        assert(rights(rr).take(0) =~= Seq::<Seq<char>>::empty());
        assert(views(dl_left@) =~= Seq::<Seq<char>>::empty());
        assert(views(dl_right@) =~= Seq::<Seq<char>>::empty());
        assert(views(left_prefixes@) =~= Seq::<Seq<char>>::empty());
        let ghost valid_ops = valid@;
        assert(valid@ =~= valid_ops + flat(lefts(rr).take(0)));
        while rest_dls.len() > 0
            invariant
                0 <= m <= dls_in.len(),
                rr == rules_from(ops_in, dls_in),
                rest_dls@ == dls_in.skip(m),
                delims@ == dls_in.take(m).map_values(|d: (String, String, D)| d.2),
                views(dl_left@) == lefts(rr).take(m),
                views(dl_right@) == rights(rr).take(m),
                valid@ == valid_ops + flat(lefts(rr).take(m)),
                right_chars@ == flat(rights(rr).take(m)),
                views(left_prefixes@) == prefix_table(lefts(rr).take(m)),
            decreases rest_dls@.len(),
        {
            let (l, r, d) = rest_dls.remove(0);
            assert(dls_in[m] == (l, r, d));
            let lc = chars_of(l.as_str());
            let rc = chars_of(r.as_str());
            add_chars(&mut valid, &lc);
            add_chars(&mut right_chars, &rc);
            add_prefixes(&mut left_prefixes, &l);
            let ghost before_l = dl_left@;
            let ghost before_r = dl_right@;
            dl_left.push(lc);
            dl_right.push(rc);
            delims.push(d);
            proof {
                assert(lefts(rr).take(m + 1).drop_last() =~= lefts(rr).take(m));
                assert(rights(rr).take(m + 1).drop_last() =~= rights(rr).take(m));
                assert(lefts(rr).take(m + 1).last() == l@);
                assert(rights(rr).take(m + 1).last() == r@);
                assert(views(dl_left@) =~= views(before_l).push(lc@));
                assert(views(dl_right@) =~= views(before_r).push(rc@));
                assert(views(dl_left@) =~= lefts(rr).take(m + 1));
                assert(views(dl_right@) =~= rights(rr).take(m + 1));
                assert(valid@ =~= valid_ops + flat(lefts(rr).take(m + 1)));
                assert(rest_dls@ =~= dls_in.skip(m + 1));
                assert(delims@ =~= dls_in.take(m + 1).map_values(|d: (String, String, D)| d.2));
                m = m + 1;
            }
        }
        assert(lefts(rr).take(m) =~= lefts(rr));
        assert(rights(rr).take(m) =~= rights(rr));
        add_chars(&mut valid, &right_chars);
        let ghost op_prefixes = prefixes@;
        prefixes.append(&mut left_prefixes);
        assert(views(prefixes@) =~= views(op_prefixes) + prefix_table(lefts(rr)));
        proof {
            let tr = table_rules(op_symbols@, dl_left@, dl_right@);
            assert(tr.ops =~= rr.ops);
            assert(tr.dls =~= rr.dls) by {
                assert forall|j: int| 0 <= j < rr.dls.len() implies tr.dls[j] == rr.dls[j] by {
                    assert(views(dl_left@)[j] == lefts(rr)[j]);
                    assert(views(dl_right@)[j] == rights(rr)[j]);
                }
            }
            assert(tr == rr);
            assert forall|c: char| #[trigger]
                valid@.contains(c) <==> is_valid_symbol_char(tr, c) by {
                lemma_symbol_chars_table(rr, c);
            }
            assert forall|p: Seq<char>| #[trigger]
                views(prefixes@).contains(p) <==> is_symbol_prefix(tr, p) by {
                lemma_symbol_prefix_table(rr, p);
            }
        }
        let source = Source { text: String::new(), chars: Vec::new() };
        assert(source.chars@ =~= source.text@);
        let lexer = Lexer {
            operators: ops,
            op_symbols,
            delims,
            dl_left,
            dl_right,
            valid_symbol_chars: valid,
            symbol_prefixes: prefixes,
            source,
            cursor: Cursor { index: 0, pos: TextPos::default() },
            current_err: None,
            cached_tokens: None,
        };
        lexer
    }
}

impl<O: Operator, D: Delimiter> Lexer<O, D> {
    /// Set the text for the [`Lexer`]. This resets the lexer: its position, its error
    /// and its kept tokens.
    ///
    /// A text of `usize::MAX` characters cannot exist; the bound keeps positions
    /// within `usize`.
    pub fn set_text(&mut self, text: &str)
        requires
            text@.len() < usize::MAX,
        ensures
            final(self).rules() == old(self).rules(),
            final(self).operators() == old(self).operators(),
            final(self).delimiters() == old(self).delimiters(),
            final(self).input() == text@,
            final(self).index() == 0,
            final(self).error() is None,
            !final(self).has_cache(),
    {
        proof {
            use_type_invariant(&*self);
        }
        self.current_err = None;
        self.cached_tokens = None;
        self.reset_position();
        let source = Source { text: String::from_str(text), chars: chars_of(text) };
        self.source = source;
    }

    /// Get a reference to the underlying text in the [`Lexer`].
    pub fn text(&self) -> (r: &str)
        ensures
            r@ == self.input(),
    {
        self.source.text.as_str()
    }

    /// Go back to the start of the text.
    fn reset_position(&mut self)
        requires
            old(self).wf(),
        ensures
            final(self).wf(),
            final(self).cursor.index == 0,
            final(self).unchanged_but_cursor(old(self)),
    {
        self.cursor = Cursor { index: 0, pos: TextPos::default() };
    }

    /// Peek a specific char with the given offset from the current char.
    fn peek_char_offset(&self, offset: usize) -> (r: Option<char>)
        requires
            self.cursor_ok(),
        ensures
            r == char_at(self.source.chars@, self.cursor.index + offset),
    {
        if offset < self.source.chars.len() - self.cursor.index {
            Some(self.source.chars[self.cursor.index + offset])
        } else {
            None
        }
    }

    /// Peek the current character in the text if it exists.
    fn current_char(&self) -> (r: Option<char>)
        requires
            self.cursor_ok(),
        ensures
            r == char_at(self.source.chars@, self.cursor.index as int),
    {
        self.peek_char_offset(0)
    }

    /// Consume the next char in the text, moving the position past it.
    fn consume_char(&mut self)
        requires
            old(self).wf(),
        ensures
            final(self).wf(),
            final(self).unchanged_but_cursor(old(self)),
            final(self).cursor.index == if old(self).cursor.index < old(self).source.chars@.len() {
                old(self).cursor.index + 1
            } else {
                old(self).cursor.index as int
            },
    {
        match self.current_char() {
            Some(c) => {
                proof {
                    lemma_pos_bounds(self.source.chars@, self.cursor.index as int);
                }
                let pos = if c == '\n' {
                    TextPos { line: self.cursor.pos.line + 1, col: 1 }
                } else {
                    TextPos { line: self.cursor.pos.line, col: self.cursor.pos.col + 1 }
                };
                self.cursor = Cursor { index: self.cursor.index + 1, pos };
            },
            None => {},
        }
    }

    /// Consume `num` chars, or all that are left if fewer.
    fn consume_chars(&mut self, num: usize)
        requires
            old(self).wf(),
        ensures
            final(self).wf(),
            final(self).unchanged_but_cursor(old(self)),
            final(self).cursor.index == if old(self).cursor.index + num <= old(self).source.chars@.len() {
                old(self).cursor.index + num
            } else {
                old(self).source.chars@.len() as int
            },
    {
        let mut k: usize = 0;
        while k < num
            invariant
                k <= num,
                self.wf(),
                self.unchanged_but_cursor(old(self)),
                self.cursor.index == if old(self).cursor.index + k <= old(self).source.chars@.len() {
                    old(self).cursor.index + k
                } else {
                    old(self).source.chars@.len() as int
                },
            decreases num - k,
        {
            self.consume_char();
            k = k + 1;
        }
    }

    /// Consume chars until the next non-whitespace character in the text.
    fn skip_whitespace(&mut self)
        requires
            old(self).wf(),
        ensures
            final(self).wf(),
            final(self).unchanged_but_cursor(old(self)),
            final(self).cursor.index == skip_ws(old(self).source.chars@, old(self).cursor.index as int),
    {
        while self.cursor.index < self.source.chars.len() && char_is_whitespace(self.source.chars[self.cursor.index])
            invariant
                self.wf(),
                self.unchanged_but_cursor(old(self)),
                skip_ws(self.source.chars@, self.cursor.index as int) == skip_ws(
                    old(self).source.chars@,
                    old(self).cursor.index as int,
                ),
            decreases self.source.chars@.len() - self.cursor.index,
        {
            self.consume_char();
        }
    }
}

/// Whether the table of characters holds `c`.
fn contains_char(v: &Vec<char>, c: char) -> (r: bool)
    ensures
        r == v@.contains(c),
{
    let mut i: usize = 0;
    while i < v.len()
        invariant
            i <= v@.len(),
            forall|k: int| 0 <= k < i ==> v@[k] != c,
        decreases v@.len() - i,
    {
        if v[i] == c {
            return true;
        }
        i = i + 1;
    }
    false
}

/// Whether `entry` is the text of `len` characters of `text` from `start`.
fn matches_at(entry: &Vec<char>, text: &Vec<char>, start: usize, len: usize) -> (r: bool)
    requires
        start + len <= text@.len(),
    ensures
        r == (entry@ == text@.subrange(start as int, start + len)),
{
    if entry.len() != len {
        return false;
    }
    let text_len = text.len();
    let mut k: usize = 0;
    while k < len
        invariant
            k <= len,
            text_len == text@.len(),
            entry@.len() == len,
            start + len <= text@.len(),
            forall|q: int| 0 <= q < k ==> entry@[q] == text@[start + q],
        decreases len - k,
    {
        if entry[k] != text[start + k] {
            assert(entry@[k as int] != text@.subrange(start as int, start + len)[k as int]);
            return false;
        }
        k = k + 1;
    }
    assert(entry@ =~= text@.subrange(start as int, start + len));
    true
}

/// Whether the text held in `v` ends with `suffix`.
fn ends_with(v: &Vec<char>, suffix: &Vec<char>) -> (r: bool)
    ensures
        r == (v@.len() >= suffix@.len() && v@.subrange(v@.len() - suffix@.len(), v@.len() as int)
            == suffix@),
{
    if suffix.len() > v.len() {
        return false;
    }
    matches_at(suffix, v, v.len() - suffix.len(), suffix.len())
}

/// The last index of a table at which it holds the text of `len` characters of `text`
/// from `start`.
fn find_last(table: &Vec<Vec<char>>, text: &Vec<char>, start: usize, len: usize) -> (r: Option<
    usize,
>)
    requires
        start + len <= text@.len(),
    ensures
        match r {
            Some(i) => last_index_of(views(table@), text@.subrange(start as int, start + len), table@.len() as int) == Some(i as int),
            None => last_index_of(views(table@), text@.subrange(start as int, start + len), table@.len() as int) is None,
        },
{
    let ghost p = text@.subrange(start as int, start + len);
    let mut n: usize = table.len();
    while n > 0
        invariant
            n <= table@.len(),
            start + len <= text@.len(),
            p == text@.subrange(start as int, start + len),
            last_index_of(views(table@), p, table@.len() as int) == last_index_of(views(table@), p, n as int),
        decreases n,
    {
        if matches_at(&table[n - 1], text, start, len) {
            return Some(n - 1);
        }
        n = n - 1;
    }
    None
}

/// Whether a table holds the text of `len` characters of `text` from `start`.
fn table_holds(table: &Vec<Vec<char>>, text: &Vec<char>, start: usize, len: usize) -> (r: bool)
    requires
        start + len <= text@.len(),
    ensures
        r == views(table@).contains(text@.subrange(start as int, start + len)),
{
    let ghost p = text@.subrange(start as int, start + len);
    let mut i: usize = 0;
    while i < table.len()
        invariant
            i <= table@.len(),
            start + len <= text@.len(),
            p == text@.subrange(start as int, start + len),
            forall|k: int| 0 <= k < i ==> views(table@)[k] != p,
        decreases table@.len() - i,
    {
        if matches_at(&table[i], text, start, len) {
            assert(views(table@)[i as int] == p);
            return true;
        }
        i = i + 1;
    }
    false
}

impl<O: Operator, D: Delimiter> Lexer<O, D> {
    /// Return if the given character is valid to start any token: a character of an
    /// operator or delimiter, an alphanumeric character or `_`.
    fn valid_token_starting_char(&self, c: char) -> (r: bool)
        requires
            self.tables_ok(),
        ensures
            r == is_token_start(self.rules(), c),
    {
        contains_char(&self.valid_symbol_chars, c) || valid_identifier_char(c)
    }

    /// Resolve an identifier.
    fn resolve_ident(&mut self) -> (r: LexerResult<RawTokenPos>)
        requires
            old(self).wf(),
        ensures
            final(self).wf(),
            final(self).unchanged_but_cursor(old(self)),
            raw_outcome(r) == lex_ident(old(self).source.chars@, old(self).cursor.index as int).0,
            final(self).cursor.index == lex_ident(old(self).source.chars@, old(self).cursor.index as int).1,
    {
        let start_pos = self.cursor.pos;
        let ghost s = self.cursor.index as int;
        let mut ident: Vec<char> = Vec::new();
        while self.cursor.index < self.source.chars.len() && valid_identifier_char(self.source.chars[self.cursor.index])
            invariant
                self.wf(),
                self.unchanged_but_cursor(old(self)),
                s == old(self).cursor.index,
                s <= self.cursor.index,
                ident@ == self.source.chars@.subrange(s, self.cursor.index as int),
                ident_end(self.source.chars@, self.cursor.index as int) == ident_end(self.source.chars@, s),
            decreases self.source.chars@.len() - self.cursor.index,
        {
            ident.push(self.source.chars[self.cursor.index]);
            self.consume_char();
            assert(ident@ =~= self.source.chars@.subrange(s, self.cursor.index as int));
        }
        Ok(RawTokenPos { token: RawToken::Ident(string_from_chars(ident.as_slice())), pos: Some(start_pos) })
    }

    /// Resolve a number - an integer `i64`, or a float literal.
    fn resolve_num(&mut self) -> (r: LexerResult<RawTokenPos>)
        requires
            old(self).wf(),
        ensures
            final(self).wf(),
            final(self).unchanged_but_cursor(old(self)),
            raw_outcome(r) == lex_number(old(self).source.chars@, old(self).cursor.index as int).0,
            final(self).cursor.index == lex_number(old(self).source.chars@, old(self).cursor.index as int).1,
    {
        let start_pos = self.cursor.pos;
        let ghost s = self.cursor.index as int;
        let mut num: Vec<char> = Vec::new();
        while self.cursor.index < self.source.chars.len() && (char_is_numeric(self.source.chars[self.cursor.index])
            || self.source.chars[self.cursor.index] == '.')
            invariant
                self.wf(),
                self.unchanged_but_cursor(old(self)),
                s == old(self).cursor.index,
                s <= self.cursor.index,
                num@ == self.source.chars@.subrange(s, self.cursor.index as int),
                number_end(self.source.chars@, self.cursor.index as int) == number_end(self.source.chars@, s),
            decreases self.source.chars@.len() - self.cursor.index,
        {
            num.push(self.source.chars[self.cursor.index]);
            self.consume_char();
            assert(num@ =~= self.source.chars@.subrange(s, self.cursor.index as int));
        }
        let lit = string_from_chars(num.as_slice());
        if contains_char(&num, '.') {
            if check_float_literal(num.as_slice()) {
                Ok(RawTokenPos { token: RawToken::Float(lit), pos: Some(start_pos) })
            } else {
                Err(LexerError::FloatParsingError { str: lit, pos: start_pos })
            }
        } else {
            match parse_unsigned_i64(num.as_slice()) {
                Some(v) => Ok(RawTokenPos { token: RawToken::Int(v), pos: Some(start_pos) }),
                None => Err(LexerError::IntegerParsingError { str: lit, pos: start_pos }),
            }
        }
    }
}

impl<O: Operator, D: Delimiter> Lexer<O, D> {
    /// Resolve a delimited type whose left delimiter, that of entry `j` of the
    /// delimiter table, has just been consumed; the token is at `l_dl_pos`.
    fn resolve_dl(&mut self, j: usize, l_dl_pos: TextPos) -> (r: LexerResult<RawTokenPos>)
        requires
            old(self).wf(),
            j < old(self).dl_left@.len(),
        ensures
            final(self).wf(),
            final(self).unchanged_but_cursor(old(self)),
            raw_outcome(r) == lex_delimited(
                old(self).source.chars@,
                old(self).cursor.index as int,
                j as int,
                old(self).dl_left@[j as int]@,
                old(self).dl_right@[j as int]@,
                l_dl_pos@,
            ).0,
            final(self).cursor.index == lex_delimited(
                old(self).source.chars@,
                old(self).cursor.index as int,
                j as int,
                old(self).dl_left@[j as int]@,
                old(self).dl_right@[j as int]@,
                l_dl_pos@,
            ).1,
    {
        let ghost t = self.source.chars@;
        let ghost a = self.cursor.index as int;
        let ghost close = self.dl_right@[j as int]@;
        let mut dl_value: Vec<char> = Vec::new();
        let mut found_closing = false;
        while !found_closing && self.cursor.index < self.source.chars.len()
            invariant
                self.wf(),
                self.unchanged_but_cursor(old(self)),
                j < self.dl_right@.len(),
                t == self.source.chars@,
                close == self.dl_right@[j as int]@,
                a == old(self).cursor.index,
                a <= self.cursor.index,
                dl_value@ == t.subrange(a, self.cursor.index as int),
                !found_closing ==> close_search(t, a, close, a + 1) == close_search(
                    t,
                    a,
                    close,
                    self.cursor.index + 1,
                ),
                found_closing ==> close_search(t, a, close, a + 1) == Some(self.cursor.index as int)
                    && closes_at(t, a, close, self.cursor.index as int),
            decreases self.source.chars@.len() - self.cursor.index, if found_closing { 0int } else { 1int },
        {
            dl_value.push(self.source.chars[self.cursor.index]);
            self.consume_char();
            let b = self.cursor.index;
            assert(dl_value@ =~= t.subrange(a, b as int));
            if ends_with(&dl_value, &self.dl_right[j]) {
                assert(dl_value@.subrange(dl_value@.len() - close.len(), dl_value@.len() as int)
                    =~= t.subrange(b - close.len(), b as int));
                found_closing = true;
            } else {
                assert(!closes_at(t, a, close, b as int)) by {
                    if b - a >= close.len() {
                        assert(dl_value@.subrange(dl_value@.len() - close.len(), dl_value@.len() as int)
                            =~= t.subrange(b - close.len(), b as int));
                    }
                }
            }
        }
        if found_closing {
            let keep = dl_value.len() - self.dl_right[j].len();
            dl_value.truncate(keep);
            assert(dl_value@ =~= t.subrange(a, self.cursor.index - close.len()));
            return Ok(
                RawTokenPos {
                    token: RawToken::Delimited(j, string_from_chars(dl_value.as_slice())),
                    pos: Some(l_dl_pos),
                },
            );
        }
        Err(
            LexerError::MissingClosingDelimiter {
                open: string_from_chars(self.dl_left[j].as_slice()),
                expected: string_from_chars(self.dl_right[j].as_slice()),
                pos: l_dl_pos,
            },
        )
    }

    /// Resolve a symbol - this might be an operator or a delimited type.
    fn resolve_symbol(&mut self) -> (r: LexerResult<RawTokenPos>)
        requires
            old(self).wf(),
            old(self).cursor.index < old(self).source.chars@.len(),
            is_symbol_prefix(old(self).rules(), old(self).source.chars@.subrange(old(self).cursor.index as int, old(self).cursor.index + 1)),
        ensures
            final(self).wf(),
            final(self).unchanged_but_cursor(old(self)),
            raw_outcome(r) == lex_symbol(old(self).rules(), old(self).source.chars@, old(self).cursor.index as int).0,
            final(self).cursor.index == lex_symbol(old(self).rules(), old(self).source.chars@, old(self).cursor.index as int).1,
    {
        let ghost rr = self.rules();
        let ghost t = self.source.chars@;
        let start_pos = self.cursor.pos;
        let s = self.cursor.index;
        let mut symbol: Vec<char> = Vec::new();
        symbol.push(self.source.chars[s]);
        assert(symbol@ =~= t.subrange(s as int, s + 1));
        // check how far the text stays a prefix of a valid symbol
        let mut offset: usize = 1;
        loop
            invariant_except_break
                self.wf(),
                self.unchanged_but_cursor(old(self)),
                rr == self.rules(),
                t == self.source.chars@,
                s == self.cursor.index,
                s == old(self).cursor.index,
                t == old(self).source.chars@,
                rr == old(self).rules(),
                start_pos@ == pos_at(t, s as int),
                1 <= offset,
                s + offset <= t.len(),
                symbol@ == t.subrange(s as int, s + offset),
                symbol_run(rr, t, s as int, 1) == symbol_run(rr, t, s as int, offset as int),
            ensures
                self.wf(),
                self.unchanged_but_cursor(old(self)),
                rr == self.rules(),
                t == self.source.chars@,
                s == self.cursor.index,
                s == old(self).cursor.index,
                t == old(self).source.chars@,
                rr == old(self).rules(),
                start_pos@ == pos_at(t, s as int),
                1 <= offset,
                s + offset <= t.len(),
                symbol_run(rr, t, s as int, 1) == offset,
                symbol@ == if s + offset < t.len() {
                    t.subrange(s as int, s + offset + 1)
                } else {
                    t.subrange(s as int, s + offset)
                },
            decreases t.len() - s - offset,
        {
            match self.peek_char_offset(offset) {
                Some(c) => {
                    symbol.push(c);
                    assert(symbol@ =~= t.subrange(s as int, s + offset + 1));
                    let is_prefix = table_holds(&self.symbol_prefixes, &self.source.chars, s, offset + 1);
                    if is_prefix {
                        offset = offset + 1;
                    } else {
                        break;
                    }
                },
                None => {
                    break;
                },
            }
        }
        // the longest prefix that is a left delimiter or an operator wins
        let mut len = offset;
        while len > 0
            invariant
                self.wf(),
                self.unchanged_but_cursor(old(self)),
                rr == self.rules(),
                t == self.source.chars@,
                s == self.cursor.index,
                s == old(self).cursor.index,
                t == old(self).source.chars@,
                rr == old(self).rules(),
                start_pos@ == pos_at(t, s as int),
                len <= offset,
                s + offset <= t.len(),
                symbol_run(rr, t, s as int, 1) == offset,
                symbol@ == if s + offset < t.len() {
                    t.subrange(s as int, s + offset + 1)
                } else {
                    t.subrange(s as int, s + offset)
                },
                pick(rr, t, s as int, offset as int) == pick(rr, t, s as int, len as int),
            decreases len,
        {
            let ghost p = t.subrange(s as int, s + len);
            match find_last(&self.dl_left, &self.source.chars, s, len) {
                Some(j) => {
                    proof {
                        assert(views(self.dl_left@) =~= lefts(rr));
                        lemma_last_index_of(lefts(rr), p, rr.dls.len() as int);
                        assert(self.dl_left@[j as int]@ == p);
                    }
                    self.consume_chars(len);
                    proof {
                        assert(self.cursor.index == s + len);
                        assert(rr.dls[j as int] == (self.dl_left@[j as int]@, self.dl_right@[j as int]@));
                        assert(dl_lookup(rr, p) == Some(j as int));
                        assert(pick(rr, t, s as int, len as int) == Some(Pick::Delim(j as int, len as int)));
                        assert(start_pos@ == pos_at(t, s as int));
                        assert(lex_symbol(rr, t, s as int) == lex_delimited(
                            t,
                            s + len,
                            j as int,
                            self.dl_left@[j as int]@,
                            self.dl_right@[j as int]@,
                            start_pos@,
                        ));
                    }
                    return self.resolve_dl(j, start_pos);
                },
                None => {},
            }
            assert(views(self.dl_left@) =~= lefts(rr));
            match find_last(&self.op_symbols, &self.source.chars, s, len) {
                Some(i) => {
                    proof {
                        lemma_last_index_of(rr.ops, p, rr.ops.len() as int);
                    }
                    self.consume_chars(len);
                    return Ok(RawTokenPos { token: RawToken::Op(i), pos: Some(start_pos) });
                },
                None => {},
            }
            len = len - 1;
        }
        Err(LexerError::UnexpectedString { str: string_from_chars(symbol.as_slice()), pos: start_pos })
    }

    /// Get the next token from the text, after any whitespace.
    fn next_token(&mut self) -> (r: LexerResult<RawTokenPos>)
        requires
            old(self).wf(),
        ensures
            final(self).wf(),
            final(self).unchanged_but_cursor(old(self)),
            raw_outcome(r) == lex_at(old(self).rules(), old(self).source.chars@, old(self).cursor.index as int).0,
            final(self).cursor.index == lex_at(old(self).rules(), old(self).source.chars@, old(self).cursor.index as int).1,
    {
        self.skip_whitespace();
        let c = match self.current_char() {
            Some(c) => c,
            None => {
                return Ok(RawTokenPos { token: RawToken::Eof, pos: None });
            },
        };
        if !self.valid_token_starting_char(c) {
            return Err(LexerError::UnexpectedChar { c, pos: self.cursor.pos });
        }
        if char_is_numeric(c) {
            return self.resolve_num();
        }
        assert(self.source.chars@.subrange(self.cursor.index as int, self.cursor.index + 1) =~= seq![c]);
        if table_holds(&self.symbol_prefixes, &self.source.chars, self.cursor.index, 1) {
            return self.resolve_symbol();
        }
        if valid_identifier_char(c) {
            return self.resolve_ident();
        }
        // a symbol character that begins no operator or delimiter: the text read as
        // a symbol, this character and the next, is not recognised
        let mut shown: Vec<char> = Vec::new();
        shown.push(c);
        if let Some(next) = self.peek_char_offset(1) {
            shown.push(next);
        }
        assert(shown@ =~= stuck_text(self.source.chars@, self.cursor.index as int));
        Err(LexerError::UnexpectedString { str: string_from_chars(shown.as_slice()), pos: self.cursor.pos })
    }
}

/// A copy of a string.
fn copy_string(s: &String) -> (r: String)
    ensures
        r == *s,
{
    s.clone()
}

impl<O: Operator, D: Delimiter> Lexer<O, D> {
    /// The token that a read token is made into when the delimited type's clones are
    /// exact: the operator value of its entry, or the delimited value of its entry
    /// filled with the text read between the delimiters.
    spec fn made(&self, raw: RawTokenPos) -> TokenPos<O, D> {
        TokenPos {
            token: match raw.token {
                RawToken::Int(i) => Token::Int(i),
                RawToken::Float(s) => Token::Float(s),
                RawToken::Ident(s) => Token::Ident(s),
                RawToken::Op(i) => Token::Op(self.operators@[i as int]),
                RawToken::Delimited(j, s) => Token::Delimited(self.delims@[j as int].filled(s)),
                RawToken::Eof => Token::Eof,
            },
            pos: raw.pos,
        }
    }

    /// The tokens of the whole text that the lexer keeps, as `lex_all` gives them when
    /// the delimited type's clones are exact; empty when none are kept.
    pub closed spec fn kept(&self) -> Seq<TokenPos<O, D>> {
        match self.cached_tokens {
            Some(v) => v@.map_values(|x: RawTokenPos| self.made(x)),
            None => Seq::empty(),
        }
    }

    /// The token of the lexer's operator and delimiter types that a read token stands
    /// for: the operator value of its entry, or a clone of the delimited value of its
    /// entry, filled with the text read between the delimiters.
    fn make_token(&self, raw: &RawTokenPos) -> (r: TokenPos<O, D>)
        requires
            self.tables_ok(),
            token_in_range(raw@.token, self.rules()),
        ensures
            token_pos_agrees(r, raw@, self.operators@, self.delims@),
            clones_exactly::<D>() ==> r == self.made(*raw),
    {
        let token = match &raw.token {
            RawToken::Int(i) => Token::Int(*i),
            RawToken::Float(s) => Token::Float(copy_string(s)),
            RawToken::Ident(s) => Token::Ident(copy_string(s)),
            RawToken::Op(i) => Token::Op(self.operators[*i]),
            RawToken::Delimited(j, s) => {
                let mut d = self.delims[*j].clone();
                let ghost d0 = d;
                let text = copy_string(s);
                let ghost filled_with = text;
                d.set(text);
                assert(cloned::<D>(self.delims@[*j as int], d0));
                assert(d == d0.filled(filled_with));
                assert(clones_exactly::<D>() ==> d0 == self.delims@[*j as int]);
                Token::Delimited(d)
            },
            RawToken::Eof => Token::Eof,
        };
        TokenPos { token, pos: raw.pos }
    }

    /// The tokens that a list of read tokens stands for.
    fn make_tokens(&self, raws: &Vec<RawTokenPos>) -> (r: Vec<TokenPos<O, D>>)
        requires
            self.tables_ok(),
            forall|k: int| 0 <= k < raws@.len() ==> token_in_range(#[trigger] raws@[k]@.token, self.rules()),
        ensures
            r@.len() == raws@.len(),
            forall|k: int|
                0 <= k < raws@.len() ==> #[trigger] token_pos_agrees(r@[k], raws@[k]@, self.operators@, self.delims@),
            clones_exactly::<D>() ==> r@ == raws@.map_values(|x: RawTokenPos| self.made(x)),
    {
        let mut r: Vec<TokenPos<O, D>> = Vec::new();
        let mut i: usize = 0;
        while i < raws.len()
            invariant
                self.tables_ok(),
                forall|k: int| 0 <= k < raws@.len() ==> token_in_range(#[trigger] raws@[k]@.token, self.rules()),
                i <= raws@.len(),
                r@.len() == i,
                forall|k: int|
                    0 <= k < i ==> #[trigger] token_pos_agrees(r@[k], raws@[k]@, self.operators@, self.delims@),
                clones_exactly::<D>() ==> r@ == raws@.take(i as int).map_values(|x: RawTokenPos| self.made(x)),
            decreases raws@.len() - i,
        {
            let t = self.make_token(&raws[i]);
            r.push(t);
            assert(raws@.take(i + 1).map_values(|x: RawTokenPos| self.made(x)) =~= raws@.take(i as int).map_values(|x: RawTokenPos| self.made(x)).push(self.made(raws@[i as int])));
            i = i + 1;
        }
        assert(raws@.take(raws@.len() as int) =~= raws@);
        r
    }

    /// Read the next token, or give the error met before again.
    fn next_raw(&mut self) -> (r: LexerResult<RawTokenPos>)
        requires
            old(self).wf(),
        ensures
            final(self).wf(),
            final(self).cached_tokens == old(self).cached_tokens,
            final(self).rules() == old(self).rules(),
            final(self).operators() == old(self).operators(),
            final(self).delimiters() == old(self).delimiters(),
            final(self).input() == old(self).input(),
            final(self).has_cache() == old(self).has_cache(),
            match old(self).error() {
                Some(e) => {
                    &&& r matches Err(x) && x@ == e
                    &&& final(self).error() == Some(e)
                    &&& final(self).index() == old(self).index()
                },
                None => {
                    let (out, j) = lex_at(old(self).rules(), old(self).input(), old(self).index());
                    &&& raw_outcome(r) == out
                    &&& final(self).index() == j
                    &&& final(self).error() == match out {
                        Ok(_) => None::<LexerErrorView>,
                        Err(e) => Some(e),
                    }
                },
            },
    {
        if let Some(e) = &self.current_err {
            return Err(e.copied());
        }
        let res = self.next_token();
        if let Err(e) = &res {
            self.current_err = Some(e.copied());
        }
        res
    }

    /// Get the next token from the input text. Advances the internal token position.
    ///
    /// Once an error has occurred, every later call returns that error again, until
    /// the text is set anew.
    pub fn next(&mut self) -> (r: LexerResult<TokenPos<O, D>>)
        ensures
            final(self).kept() == old(self).kept(),
            final(self).rules() == old(self).rules(),
            final(self).operators() == old(self).operators(),
            final(self).delimiters() == old(self).delimiters(),
            final(self).input() == old(self).input(),
            final(self).has_cache() == old(self).has_cache(),
            match old(self).error() {
                Some(e) => {
                    &&& r matches Err(x) && x@ == e
                    &&& final(self).error() == Some(e)
                    &&& final(self).index() == old(self).index()
                },
                None => {
                    let (out, j) = lex_at(old(self).rules(), old(self).input(), old(self).index());
                    &&& outcome_agrees(r, out, old(self).operators(), old(self).delimiters())
                    &&& final(self).index() == j
                    &&& (r matches Ok(tp) && !(tp.token is Eof) ==> final(self).index() > old(self).index())
                    &&& final(self).error() == match out {
                        Ok(_) => None::<LexerErrorView>,
                        Err(e) => Some(e),
                    }
                },
            },
    {
        proof {
            use_type_invariant(&*self);
            lemma_lex_at_in_range(self.rules(), self.input(), self.index());
            lemma_lex_at_progress(self.rules(), self.input(), self.index());
        }
        match self.next_raw() {
            Ok(raw) => Ok(self.make_token(&raw)),
            Err(e) => Err(e),
        }
    }

    /// Lex the whole text from its start: the tokens up to and including the end of
    /// the text, or the first error.
    fn lex_all_tokens(&mut self) -> (r: LexerResult<Vec<RawTokenPos>>)
        requires
            old(self).wf(),
            old(self).error() is None,
        ensures
            final(self).wf(),
            final(self).rules() == old(self).rules(),
            final(self).operators() == old(self).operators(),
            final(self).delimiters() == old(self).delimiters(),
            final(self).input() == old(self).input(),
            final(self).has_cache() == old(self).has_cache(),
            match lex_all_outcome(old(self).rules(), old(self).input()) {
                LexRun::Done(ts, end) => {
                    &&& r matches Ok(v) && raw_views(v@) == ts
                    &&& final(self).error() is None
                    &&& final(self).index() == end
                },
                LexRun::Failed(e) => {
                    &&& r matches Err(x) && x@ == e
                    &&& final(self).error() == Some(e)
                },
                LexRun::Unfinished => false,
            },
    {
        let ghost rr = self.rules();
        let ghost t = self.input();
        proof {
            lemma_lex_terminates(rr, t);
        }
        let ghost n0: nat = choose|n: nat| !(#[trigger] lex_run(rr, t, 0, n) is Unfinished);
        self.reset_position();
        let mut tokens: Vec<RawTokenPos> = Vec::new();
        assert(prepend(raw_views(tokens@), lex_run(rr, t, 0, n0)) == lex_run(rr, t, 0, n0)) by {
            if let LexRun::Done(ts, k) = lex_run(rr, t, 0, n0) {
                assert(raw_views(tokens@) + ts =~= ts);
            }
        }
        loop
            invariant
                self.wf(),
                self.rules() == rr,
                self.operators() == old(self).operators(),
                self.delimiters() == old(self).delimiters(),
                self.input() == t,
                self.has_cache() == old(self).has_cache(),
                self.error() is None,
                rr == old(self).rules(),
                t == old(self).input(),
                !(lex_run(rr, t, 0, n0) is Unfinished),
                lex_all_outcome(rr, t) == lex_run(rr, t, 0, n0),
                tokens@.len() <= n0,
                lex_run(rr, t, 0, n0) == prepend(
                    raw_views(tokens@),
                    lex_run(rr, t, self.index(), (n0 - tokens@.len()) as nat),
                ),
            decreases n0 - tokens@.len(),
        {
            let ghost f = (n0 - tokens@.len()) as nat;
            let ghost i = self.index();
            let ghost old_vs = raw_views(tokens@);
            assert(f > 0);
            let tp = self.next_raw()?;
            let ghost (out, j) = lex_at(rr, t, i);
            let ghost v = out->Ok_0;
            let eof = match tp.token {
                RawToken::Eof => true,
                _ => false,
            };
            tokens.push(tp);
            proof {
                assert(raw_views(tokens@) =~= old_vs.push(v));
                if !eof {
                    let rest = lex_run(rr, t, j, (f - 1) as nat);
                    assert(lex_run(rr, t, i, f) == match rest {
                        LexRun::Done(ts, k) => LexRun::Done(seq![v] + ts, k),
                        other => other,
                    });
                    if let LexRun::Done(ts, k) = rest {
                        assert(raw_views(tokens@) + ts =~= old_vs + (seq![v] + ts));
                    }
                }
            }
            if eof {
                proof {
                    assert(raw_views(tokens@) =~= old_vs + seq![v]);
                }
                return Ok(tokens);
            }
        }
    }

    /// Attempt to lex the entire input string into tokens. Reads until the end of the
    /// text is reached: the last token of the vector is the end-of-text token, and the
    /// tokens are those that `next` gives from the start of the text. The result is
    /// kept (`kept`), and given again by later calls until the text is set anew: where
    /// the delimited type's clones are exact, every such call gives the same vector.
    ///
    /// Resets the internal token position used by `next`.
    pub fn lex_all(&mut self) -> (r: LexerResult<Vec<TokenPos<O, D>>>)
        ensures
            clones_exactly::<D>() ==> (r matches Ok(v) ==> v@ == final(self).kept()),
            old(self).has_cache() ==> final(self).kept() == old(self).kept(),
            final(self).rules() == old(self).rules(),
            final(self).operators() == old(self).operators(),
            final(self).delimiters() == old(self).delimiters(),
            final(self).input() == old(self).input(),
            match old(self).error() {
                Some(e) => {
                    &&& r matches Err(x) && x@ == e
                    &&& final(self).error() == Some(e)
                    &&& final(self).index() == old(self).index()
                    &&& final(self).has_cache() == old(self).has_cache()
                },
                None => match lex_all_outcome(old(self).rules(), old(self).input()) {
                    LexRun::Done(ts, end) => {
                        &&& r matches Ok(v) && v@.len() == ts.len() && forall|k: int|
                            0 <= k < ts.len() ==> #[trigger] token_pos_agrees(
                                v@[k],
                                ts[k],
                                old(self).operators(),
                                old(self).delimiters(),
                            )
                        &&& final(self).error() is None
                        &&& final(self).has_cache()
                        &&& final(self).index() == if old(self).has_cache() {
                            old(self).index()
                        } else {
                            end
                        }
                    },
                    LexRun::Failed(e) => {
                        &&& r matches Err(x) && x@ == e
                        &&& final(self).error() == Some(e)
                        &&& !final(self).has_cache()
                    },
                    LexRun::Unfinished => false,
                },
            },
            r matches Ok(v) ==> {
                &&& 1 <= v@.len() <= old(self).input().len() + 1
                &&& v@.last().token is Eof
                &&& forall|k: int| 0 <= k < v@.len() - 1 ==> !(#[trigger] v@[k].token is Eof)
            },
    {
        let ghost rr = self.rules();
        let ghost t = self.input();
        proof {
            lemma_lex_terminates(rr, t);
        }
        let ghost n0: nat = choose|n: nat| !(#[trigger] lex_run(rr, t, 0, n) is Unfinished);
        proof {
            lemma_run_ends_with_eof(rr, t, 0, n0);
            lemma_run_in_range(rr, t, 0, n0);
        }
        if let Some(e) = &self.current_err {
            return Err(e.copied());
        }
        proof {
            use_type_invariant(&*self);
        }
        let raws = if let Some(v) = &self.cached_tokens {
            copy_raw_tokens(v)
        } else {
            let v = self.lex_all_tokens()?;
            self.cached_tokens = Some(copy_raw_tokens(&v));
            v
        };
        proof {
            if let LexRun::Done(ts, _) = lex_all_outcome(rr, t) {
                assert forall|k: int| 0 <= k < raws@.len() implies token_in_range(#[trigger] raws@[k]@.token, self.rules()) by {
                    assert(raws@[k]@ == raw_views(raws@)[k]);
                }
            }
        }
        proof {
            use_type_invariant(&*self);
        }
        let v = self.make_tokens(&raws);
        proof {
            if let LexRun::Done(ts, _) = lex_all_outcome(rr, t) {
                assert forall|k: int| 0 <= k < ts.len() implies #[trigger] token_pos_agrees(v@[k], ts[k], self.operators@, self.delims@) by {
                    assert(raws@[k]@ == raw_views(raws@)[k]);
                }
                assert forall|k: int| 0 <= k < v@.len() - 1 implies !(#[trigger] v@[k].token is Eof) by {
                    assert(raws@[k]@ == raw_views(raws@)[k]);
                    assert(token_pos_agrees(v@[k], ts[k], self.operators@, self.delims@));
                    assert(!(ts[k].token is Eof));
                }
                assert(token_pos_agrees(v@[v@.len() - 1], ts[ts.len() - 1], self.operators@, self.delims@));
            }
        }
        Ok(v)
    }
}

/// The rules of the default operators, with no delimited types.
pub open spec fn default_rules() -> Rules {
    Rules {
        ops: DefaultOperators::all().map_values(|o: DefaultOperators| o.symbol_text()),
        dls: Seq::empty(),
    }
}

impl Default for Lexer<DefaultOperators, NullDelimiter> {
    /// Create a default [`Lexer`] with the default operator type [`DefaultOperators`]
    /// and a null delimiter: the lexer that `new` builds for these types.
    fn default() -> (r: Self)
        ensures
            r.rules() == default_rules(),
            r.operators() == DefaultOperators::all(),
            r.delimiters().len() == 0,
            r.input().len() == 0,
            r.index() == 0,
            r.error() is None,
            !r.has_cache(),
    {
        let r = Self::new();
        proof {
            let (vs, texts, ds, found) = choose|
                vs: Vec<DefaultOperators>,
                texts: Seq<String>,
                ds: Vec<NullDelimiter>,
                found: Seq<Option<(String, String)>>,
            | #[trigger] r.built_from(vs, texts, ds, found);
            lemma_built_default(r, vs, texts, ds, found);
        }
        r
    }
}

} // verus!
