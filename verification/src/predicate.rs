//! The predicate engine: compiles a condition string into a reusable
//! boolean row predicate. A quoted-string-aware tokenizer feeds a parser
//! that splits at the top-level `OR` (lowest precedence), then at the
//! top-level `AND`, unwraps fully parenthesized terms, and finally reads
//! a single comparison. The compiled predicate holds only resolved
//! column indices and literal operands, so it can be stored and reused
//! against any row of the same table shape.

use vstd::prelude::*;
use vstd::string::*;

use crate::error::{DbError, DbErrorV};
use crate::model::{col_index, ColumnV, Column};
use crate::values::{
    is_null_cell, is_null_str, is_space, numeric_value, str_chars, str_eq, strip_quotes,
    strip_quotes_str, to_i32_or_0, to_lower,
};

verus! {

/// One token of a condition string: a bare word, a quoted literal (the
/// quotes already stripped, inner spaces kept), or a parenthesis.
#[derive(Debug)]
pub enum Token {
    Word(String),
    Quoted(String),
    LParen,
    RParen,
}

/// The mathematical reading of a token.
pub ghost enum TokenV {
    Word(Seq<char>),
    Quoted(Seq<char>),
    LParen,
    RParen,
}

impl View for Token {
    type V = TokenV;

    open spec fn view(&self) -> TokenV {
        match self {
            Token::Word(w) => TokenV::Word(w@),
            Token::Quoted(q) => TokenV::Quoted(q@),
            Token::LParen => TokenV::LParen,
            Token::RParen => TokenV::RParen,
        }
    }
}

impl DeepView for Token {
    type V = TokenV;

    open spec fn deep_view(&self) -> TokenV {
        self.view()
    }
}

/// A character that ends a bare word: whitespace, a parenthesis, or a
/// quote character.
pub open spec fn is_delim(c: char) -> bool {
    is_space(c) || c == '(' || c == ')' || c == '"' || c == '\''
}

/// The first delimiter position at or after `i`, or the end of `s`.
pub open spec fn word_end(s: Seq<char>, i: int) -> int
    decreases s.len() - i,
{
    if i < 0 || i >= s.len() {
        i
    } else if is_delim(s[i]) {
        i
    } else {
        word_end(s, i + 1)
    }
}

/// The first position at or after `i` holding the closing quote `q`.
pub open spec fn find_close(s: Seq<char>, q: char, i: int) -> Option<int>
    decreases s.len() - i,
{
    if i < 0 || i >= s.len() {
        None
    } else if s[i] == q {
        Some(i)
    } else {
        find_close(s, q, i + 1)
    }
}

/// The token sequence of a condition string, or `None` when a quoted
/// literal is left unterminated. Quotes of either kind delimit literals
/// whose inner spaces are kept; words end at whitespace, parentheses and
/// quotes; whitespace separates and is dropped.
pub open spec fn tokenize_spec(s: Seq<char>) -> Option<Seq<TokenV>>
    decreases s.len(),
{
    if s.len() == 0 {
        Some(Seq::empty())
    } else if is_space(s[0]) {
        tokenize_spec(s.drop_first())
    } else if s[0] == '(' {
        match tokenize_spec(s.drop_first()) {
            None => None,
            Some(ts) => Some(seq![TokenV::LParen] + ts),
        }
    } else if s[0] == ')' {
        match tokenize_spec(s.drop_first()) {
            None => None,
            Some(ts) => Some(seq![TokenV::RParen] + ts),
        }
    } else if s[0] == '"' || s[0] == '\'' {
        match find_close(s, s[0], 1) {
            None => None,
            Some(c) => if c < 1 || c >= s.len() {
                None
            } else {
                match tokenize_spec(s.skip(c + 1)) {
                    None => None,
                    Some(ts) => Some(seq![TokenV::Quoted(s.subrange(1, c))] + ts),
                }
            },
        }
    } else {
        let e = word_end(s, 1);
        if e < 1 || e > s.len() {
            None
        } else {
            match tokenize_spec(s.skip(e)) {
                None => None,
                Some(ts) => Some(seq![TokenV::Word(s.subrange(0, e))] + ts),
            }
        }
    }
}

/// Composes already-produced tokens with the tokens of the remaining
/// text.
pub open spec fn tok_compose(acc: Seq<TokenV>, rest: Option<Seq<TokenV>>) -> Option<Seq<TokenV>> {
    match rest {
        None => None,
        Some(ts) => Some(acc + ts),
    }
}

fn is_delim_c(c: char) -> (r: bool)
    ensures
        r == is_delim(c),
{
    c == ' ' || c == '\t' || c == '\n' || c == '\r' || c == '(' || c == ')' || c == '"' || c == '\''
}

/// Splits a condition string into tokens; fails on an unterminated
/// quoted literal.
pub fn tokenize(s: &str) -> (r: Result<Vec<Token>, DbError>)
    ensures
        match r {
            Ok(ts) => tokenize_spec(s@) == Some(ts.deep_view()),
            Err(e) => tokenize_spec(s@) is None && e@ matches DbErrorV::ConditionParseError(_),
        },
{
    let v = str_chars(s);
    let n = v.len();
    let mut toks: Vec<Token> = Vec::new();
    let mut i: usize = 0;
    proof {
        assert(v@.skip(0) =~= v@);
        assert(toks.deep_view() =~= Seq::<TokenV>::empty());
    }
    while i < n
        invariant
            i <= n,
            n == v@.len(),
            v@ == s@,
            tokenize_spec(s@) == tok_compose(toks.deep_view(), tokenize_spec(v@.skip(i as int))),
        decreases n - i,
    {
        let ghost acc0 = toks.deep_view();
        let ghost suf = v@.skip(i as int);
        proof {
            assert(suf[0] == v@[i as int]);
            assert(suf.drop_first() =~= v@.skip(i as int + 1));
        }
        let c = v[i];
        if c == ' ' || c == '\t' || c == '\n' || c == '\r' {
            i += 1;
        } else if c == '(' || c == ')' {
            let tok = if c == '(' {
                Token::LParen
            } else {
                Token::RParen
            };
            toks.push(tok);
            proof {
                assert(toks.deep_view() =~= acc0.push(
                    if c == '(' {
                        TokenV::LParen
                    } else {
                        TokenV::RParen
                    },
                ));
                if tokenize_spec(suf.drop_first()) is Some {
                    let ts = tokenize_spec(suf.drop_first()).unwrap();
                    assert(acc0 + (seq![
                        if c == '(' {
                            TokenV::LParen
                        } else {
                            TokenV::RParen
                        },
                    ] + ts) =~= toks.deep_view() + ts);
                }
            }
            i += 1;
        } else if c == '"' || c == '\'' {
            let mut j: usize = i + 1;
            while j < n && v[j] != c
                invariant
                    i + 1 <= j <= n,
                    n == v@.len(),
                    suf == v@.skip(i as int),
                    c == v@[i as int],
                    find_close(suf, c, 1) == find_close(suf, c, j - i),
                decreases n - j,
            {
                proof {
                    assert(suf[j - i] == v@[j as int]);
                }
                j += 1;
            }
            if j == n {
                proof {
                    assert(find_close(suf, c, j - i) is None);
                    assert(tokenize_spec(suf) is None);
                }
                return Err(
                    DbError::ConditionParseError(String::from_str("unterminated quote")),
                );
            }
            let mut inner: Vec<char> = Vec::new();
            let mut k: usize = i + 1;
            while k < j
                invariant
                    i + 1 <= k <= j,
                    j < n,
                    n == v@.len(),
                    inner@ =~= v@.subrange(i as int + 1, k as int),
                decreases j - k,
            {
                inner.push(v[k]);
                proof {
                    assert(inner@ =~= v@.subrange(i as int + 1, k + 1));
                }
                k += 1;
            }
            let lit = crate::values::chars_to_string(&inner);
            toks.push(Token::Quoted(lit));
            proof {
                assert(suf[j - i] == v@[j as int]);
                assert(find_close(suf, c, j - i) == Some(j - i));
                assert(suf.subrange(1, j - i) =~= v@.subrange(i as int + 1, j as int));
                assert(suf.skip(j - i + 1) =~= v@.skip(j as int + 1));
                assert(toks.deep_view() =~= acc0.push(TokenV::Quoted(v@.subrange(i as int + 1, j as int))));
                if tokenize_spec(v@.skip(j as int + 1)) is Some {
                    let ts = tokenize_spec(v@.skip(j as int + 1)).unwrap();
                    assert(acc0 + (seq![TokenV::Quoted(suf.subrange(1, j - i))] + ts) =~= toks.deep_view() + ts);
                }
            }
            i = j + 1;
        } else {
            let mut j: usize = i + 1;
            while j < n && !is_delim_c(v[j])
                invariant
                    i + 1 <= j <= n,
                    n == v@.len(),
                    suf == v@.skip(i as int),
                    word_end(suf, 1) == word_end(suf, j - i),
                decreases n - j,
            {
                proof {
                    assert(suf[j - i] == v@[j as int]);
                }
                j += 1;
            }
            proof {
                if j < n {
                    assert(suf[j - i] == v@[j as int]);
                }
                assert(word_end(suf, j - i) == j - i);
            }
            let mut wchars: Vec<char> = Vec::new();
            let mut k: usize = i;
            while k < j
                invariant
                    i <= k <= j,
                    j <= n,
                    n == v@.len(),
                    wchars@ =~= v@.subrange(i as int, k as int),
                decreases j - k,
            {
                wchars.push(v[k]);
                proof {
                    assert(wchars@ =~= v@.subrange(i as int, k + 1));
                }
                k += 1;
            }
            let w = crate::values::chars_to_string(&wchars);
            toks.push(Token::Word(w));
            proof {
                assert(suf.subrange(0, j - i) =~= v@.subrange(i as int, j as int));
                assert(suf.skip(j - i) =~= v@.skip(j as int));
                assert(toks.deep_view() =~= acc0.push(TokenV::Word(v@.subrange(i as int, j as int))));
                if tokenize_spec(v@.skip(j as int)) is Some {
                    let ts = tokenize_spec(v@.skip(j as int)).unwrap();
                    assert(acc0 + (seq![TokenV::Word(suf.subrange(0, j - i))] + ts) =~= toks.deep_view() + ts);
                }
            }
            i = j;
        }
    }
    proof {
        assert(v@.skip(i as int) =~= Seq::<char>::empty());
        assert(tokenize_spec(v@.skip(i as int)) == Some(Seq::<TokenV>::empty()));
        assert(toks.deep_view() + Seq::<TokenV>::empty() =~= toks.deep_view());
    }
    Ok(toks)
}

/// A comparison operator of the condition language.
#[derive(Clone, Copy, PartialEq, Eq, Structural, Debug)]
pub enum CmpOp {
    Gt,
    Lt,
    Eq,
}

/// A compiled predicate: a tagged expression tree over resolved column
/// indices and literal operands, evaluated against a row.
#[derive(Debug)]
pub enum Predicate {
    /// `column op literal` with a numeric (`>`, `<`) or literal (`=`)
    /// comparison.
    Compare { col: usize, op: CmpOp, literal: String },
    /// `column IS NULL` (or `IS NOT NULL` when negated).
    Null { col: usize, negated: bool },
    And(Box<Predicate>, Box<Predicate>),
    Or(Box<Predicate>, Box<Predicate>),
}

/// The mathematical reading of a compiled predicate.
pub ghost enum PredV {
    Compare { col: int, op: CmpOp, literal: Seq<char> },
    Null { col: int, negated: bool },
    And(Box<PredV>, Box<PredV>),
    Or(Box<PredV>, Box<PredV>),
}

/// The mathematical reading of a compiled predicate tree.
pub open spec fn pred_view(p: &Predicate) -> PredV
    decreases p,
{
    match p {
        Predicate::Compare { col, op, literal } => PredV::Compare {
            col: *col as int,
            op: *op,
            literal: literal@,
        },
        Predicate::Null { col, negated } => PredV::Null { col: *col as int, negated: *negated },
        Predicate::And(a, b) => PredV::And(Box::new(pred_view(a)), Box::new(pred_view(b))),
        Predicate::Or(a, b) => PredV::Or(Box::new(pred_view(a)), Box::new(pred_view(b))),
    }
}

impl View for Predicate {
    type V = PredV;

    open spec fn view(&self) -> PredV {
        pred_view(self)
    }
}

/// Every column index the predicate reads lies within a row of `ncols`
/// cells.
pub open spec fn pred_wf(p: PredV, ncols: int) -> bool
    decreases p,
{
    match p {
        PredV::Compare { col, op, literal } => 0 <= col < ncols,
        PredV::Null { col, negated } => 0 <= col < ncols,
        PredV::And(a, b) => pred_wf(*a, ncols) && pred_wf(*b, ncols),
        PredV::Or(a, b) => pred_wf(*a, ncols) && pred_wf(*b, ncols),
    }
}

/// What a predicate says of a row. Numeric comparisons read a cell as
/// its 32-bit value, or 0 when it does not parse; `=` compares the
/// quote-stripped cell literally; the NULL tests use the enforcer's NULL
/// test.
pub open spec fn eval_pred(p: PredV, row: Seq<Seq<char>>) -> bool
    decreases p,
{
    match p {
        PredV::Compare { col, op, literal } => {
            let cell = strip_quotes(row[col]);
            match op {
                CmpOp::Gt => numeric_value(cell) > numeric_value(literal),
                CmpOp::Lt => numeric_value(cell) < numeric_value(literal),
                CmpOp::Eq => cell == literal,
            }
        },
        PredV::Null { col, negated } => negated != is_null_cell(row[col]),
        PredV::And(a, b) => eval_pred(*a, row) && eval_pred(*b, row),
        PredV::Or(a, b) => eval_pred(*a, row) || eval_pred(*b, row),
    }
}

impl Predicate {
    /// Evaluates this predicate against one row.
    pub fn eval(&self, row: &Vec<String>) -> (r: bool)
        requires
            pred_wf(self@, row@.len() as int),
        ensures
            r == eval_pred(self@, row.deep_view()),
        decreases self,
    {
        match self {
            Predicate::Compare { col, op, literal } => {
                let cell = strip_quotes_str(row[*col].as_str());
                proof {
                    assert(row.deep_view()[*col as int] == row@[*col as int]@);
                }
                match op {
                    CmpOp::Gt => to_i32_or_0(cell.as_str()) > to_i32_or_0(literal.as_str()),
                    CmpOp::Lt => to_i32_or_0(cell.as_str()) < to_i32_or_0(literal.as_str()),
                    CmpOp::Eq => str_eq(cell.as_str(), literal.as_str()),
                }
            },
            Predicate::Null { col, negated } => {
                proof {
                    assert(row.deep_view()[*col as int] == row@[*col as int]@);
                }
                *negated != is_null_str(row[*col].as_str())
            },
            Predicate::And(a, b) => a.eval(row) && b.eval(row),
            Predicate::Or(a, b) => a.eval(row) || b.eval(row),
        }
    }
}

/// The keyword tests, ASCII case-insensitive, on bare words only: a
/// quoted literal never acts as a keyword.
pub open spec fn is_and_kw(t: TokenV) -> bool {
    t matches TokenV::Word(w) && w.len() == 3 && to_lower(w[0]) == 'a' && to_lower(w[1]) == 'n'
        && to_lower(w[2]) == 'd'
}

pub open spec fn is_or_kw(t: TokenV) -> bool {
    t matches TokenV::Word(w) && w.len() == 2 && to_lower(w[0]) == 'o' && to_lower(w[1]) == 'r'
}

pub open spec fn is_is_kw(t: TokenV) -> bool {
    t matches TokenV::Word(w) && w.len() == 2 && to_lower(w[0]) == 'i' && to_lower(w[1]) == 's'
}

pub open spec fn is_not_kw(t: TokenV) -> bool {
    t matches TokenV::Word(w) && w.len() == 3 && to_lower(w[0]) == 'n' && to_lower(w[1]) == 'o'
        && to_lower(w[2]) == 't'
}

pub open spec fn is_null_kw(t: TokenV) -> bool {
    t matches TokenV::Word(w) && w.len() == 4 && to_lower(w[0]) == 'n' && to_lower(w[1]) == 'u'
        && to_lower(w[2]) == 'l' && to_lower(w[3]) == 'l'
}

/// The text a word or quoted token carries.
pub open spec fn tok_text(t: TokenV) -> Seq<char> {
    match t {
        TokenV::Word(w) => w,
        TokenV::Quoted(q) => q,
        TokenV::LParen => Seq::empty(),
        TokenV::RParen => Seq::empty(),
    }
}

/// Whether the token is a word or quoted literal (usable as a column
/// name or comparison value).
pub open spec fn is_texty(t: TokenV) -> bool {
    t is Word || t is Quoted
}

/// The position of the first keyword token (`OR` when `want_or`, else
/// `AND`) at parenthesis depth zero, scanning from `i` at depth `depth`.
pub open spec fn find_top_kw(ts: Seq<TokenV>, i: int, depth: int, want_or: bool) -> Option<int>
    decreases ts.len() - i,
{
    if i < 0 || i >= ts.len() {
        None
    } else if ts[i] is LParen {
        find_top_kw(ts, i + 1, depth + 1, want_or)
    } else if ts[i] is RParen {
        find_top_kw(ts, i + 1, depth - 1, want_or)
    } else if depth == 0 && (if want_or {
        is_or_kw(ts[i])
    } else {
        is_and_kw(ts[i])
    }) {
        Some(i)
    } else {
        find_top_kw(ts, i + 1, depth, want_or)
    }
}

/// The position of the parenthesis closing the one that opens the token
/// sequence: the first position where the depth returns to zero.
pub open spec fn find_match(ts: Seq<TokenV>, i: int, depth: int) -> Option<int>
    decreases ts.len() - i,
{
    if i < 0 || i >= ts.len() {
        None
    } else if ts[i] is RParen {
        if depth == 1 {
            Some(i)
        } else {
            find_match(ts, i + 1, depth - 1)
        }
    } else if ts[i] is LParen {
        find_match(ts, i + 1, depth + 1)
    } else {
        find_match(ts, i + 1, depth)
    }
}

/// The comparison operator a token spells, if any: a bare one-character
/// word `>`, `<` or `=`.
pub open spec fn cmp_op_of(t: TokenV) -> Option<CmpOp> {
    if t matches TokenV::Word(w) && w.len() == 1 {
        if (tok_text(t))[0] == '>' {
            Some(CmpOp::Gt)
        } else if (tok_text(t))[0] == '<' {
            Some(CmpOp::Lt)
        } else if (tok_text(t))[0] == '=' {
            Some(CmpOp::Eq)
        } else {
            None
        }
    } else {
        None
    }
}

/// A single comparison: `column op value` with `op` one of `>`, `<`,
/// `=`; or `column IS NULL`; or `column IS NOT NULL`. The column
/// resolves to its position in the schema; an unknown column or any
/// other shape fails.
pub open spec fn parse_cmp_spec(cols: Seq<ColumnV>, ts: Seq<TokenV>) -> Option<PredV> {
    if ts.len() == 3 && is_texty(ts[0]) {
        match col_index(cols, tok_text(ts[0])) {
            None => None,
            Some(ci) => match cmp_op_of(ts[1]) {
                Some(op) => if is_texty(ts[2]) {
                    Some(PredV::Compare { col: ci, op, literal: tok_text(ts[2]) })
                } else {
                    None
                },
                None => if is_is_kw(ts[1]) && is_null_kw(ts[2]) {
                    Some(PredV::Null { col: ci, negated: false })
                } else {
                    None
                },
            },
        }
    } else if ts.len() == 4 && is_texty(ts[0]) && is_is_kw(ts[1]) && is_not_kw(ts[2])
        && is_null_kw(ts[3]) {
        match col_index(cols, tok_text(ts[0])) {
            None => None,
            Some(ci) => Some(PredV::Null { col: ci, negated: true }),
        }
    } else {
        None
    }
}

/// The condition grammar over tokens: split at the first top-level `OR`
/// (lowest precedence), else at the first top-level `AND`, else unwrap a
/// fully parenthesized condition, else read a single comparison.
pub open spec fn parse_cond_spec(cols: Seq<ColumnV>, ts: Seq<TokenV>) -> Option<PredV>
    decreases ts.len(),
{
    if ts.len() == 0 {
        None
    } else {
        match find_top_kw(ts, 0, 0, true) {
            Some(p) => if 0 <= p < ts.len() {
                match (parse_cond_spec(cols, ts.take(p)), parse_cond_spec(cols, ts.skip(p + 1))) {
                    (Some(l), Some(r)) => Some(PredV::Or(Box::new(l), Box::new(r))),
                    _ => None,
                }
            } else {
                None
            },
            None => match find_top_kw(ts, 0, 0, false) {
                Some(p) => if 0 <= p < ts.len() {
                    match (
                        parse_cond_spec(cols, ts.take(p)),
                        parse_cond_spec(cols, ts.skip(p + 1)),
                    ) {
                        (Some(l), Some(r)) => Some(PredV::And(Box::new(l), Box::new(r))),
                        _ => None,
                    }
                } else {
                    None
                },
                None => if ts[0] is LParen && find_match(ts, 1, 1) == Some(ts.len() - 1)
                    && ts.len() >= 2 {
                    parse_cond_spec(cols, ts.subrange(1, ts.len() - 1))
                } else {
                    parse_cmp_spec(cols, ts)
                },
            },
        }
    }
}

/// The whole compilation pipeline: tokenize, then parse. An empty or
/// malformed condition yields nothing.
pub open spec fn compile_spec(cols: Seq<ColumnV>, s: Seq<char>) -> Option<PredV> {
    match tokenize_spec(s) {
        None => None,
        Some(ts) => parse_cond_spec(cols, ts),
    }
}

fn kw_chars(t: &Token, kw: &[char]) -> (r: bool)
    ensures
        r == (t@ matches TokenV::Word(w) && w.len() == kw@.len() && (forall|k: int|
            0 <= k < kw@.len() ==> to_lower(w[k]) == kw@[k])),
{
    match t {
        Token::Word(w) => {
            let n = w.as_str().unicode_len();
            if n != kw.len() {
                return false;
            }
            let mut k: usize = 0;
            while k < n
                invariant
                    k <= n,
                    n == w@.len(),
                    n == kw@.len(),
                    t@ == TokenV::Word(w@),
                    forall|m: int| 0 <= m < k ==> to_lower(w@[m]) == kw@[m],
                decreases n - k,
            {
                if crate::values::lower_c(w.as_str().get_char(k)) != kw[k] {
                    return false;
                }
                k += 1;
            }
            true
        },
        _ => false,
    }
}

fn tok_is_or(t: &Token) -> (r: bool)
    ensures
        r == is_or_kw(t@),
{
    let kw = ['o', 'r'];
    kw_chars(t, kw.as_slice())
}

fn tok_is_and(t: &Token) -> (r: bool)
    ensures
        r == is_and_kw(t@),
{
    let kw = ['a', 'n', 'd'];
    kw_chars(t, kw.as_slice())
}

fn tok_is_is(t: &Token) -> (r: bool)
    ensures
        r == is_is_kw(t@),
{
    let kw = ['i', 's'];
    kw_chars(t, kw.as_slice())
}

fn tok_is_not(t: &Token) -> (r: bool)
    ensures
        r == is_not_kw(t@),
{
    let kw = ['n', 'o', 't'];
    kw_chars(t, kw.as_slice())
}

fn tok_is_null(t: &Token) -> (r: bool)
    ensures
        r == is_null_kw(t@),
{
    let kw = ['n', 'u', 'l', 'l'];
    kw_chars(t, kw.as_slice())
}

fn tok_cmp_op(t: &Token) -> (r: Option<CmpOp>)
    ensures
        r == cmp_op_of(t@),
{
    match t {
        Token::Word(w) => {
            if w.as_str().unicode_len() != 1 {
                return None;
            }
            let c = w.as_str().get_char(0);
            if c == '>' {
                Some(CmpOp::Gt)
            } else if c == '<' {
                Some(CmpOp::Lt)
            } else if c == '=' {
                Some(CmpOp::Eq)
            } else {
                None
            }
        },
        _ => None,
    }
}

fn tok_text_exec<'a>(t: &'a Token) -> (r: Option<&'a String>)
    ensures
        match r {
            Some(s) => is_texty(t@) && s@ == tok_text(t@),
            None => !is_texty(t@),
        },
{
    match t {
        Token::Word(w) => Some(w),
        Token::Quoted(q) => Some(q),
        Token::LParen => None,
        Token::RParen => None,
    }
}

/// Scans `[lo, hi)` for the first top-level `OR` (or `AND`) token.
fn find_top_exec(ts: &Vec<Token>, lo: usize, hi: usize, want_or: bool) -> (r: Option<usize>)
    requires
        lo <= hi <= ts@.len(),
    ensures
        ({
            let sub = ts.deep_view().subrange(lo as int, hi as int);
            match r {
                Some(p) => lo <= p < hi && find_top_kw(sub, 0, 0, want_or) == Some(p - lo),
                None => find_top_kw(sub, 0, 0, want_or) is None,
            }
        }),
{
    let ghost sub = ts.deep_view().subrange(lo as int, hi as int);
    let mut i: usize = lo;
    let mut d: i128 = 0;
    while i < hi
        invariant
            lo <= i <= hi <= ts@.len(),
            sub == ts.deep_view().subrange(lo as int, hi as int),
            -(i as int) <= d as int <= i as int,
            find_top_kw(sub, 0, 0, want_or) == find_top_kw(sub, i - lo, d as int, want_or),
        decreases hi - i,
    {
        proof {
            assert(sub[i - lo] == ts.deep_view()[i as int]);
        }
        let kw_hit = if want_or {
            tok_is_or(&ts[i])
        } else {
            tok_is_and(&ts[i])
        };
        match &ts[i] {
            Token::LParen => {
                d += 1;
            },
            Token::RParen => {
                d -= 1;
            },
            _ => {
                if d == 0 && kw_hit {
                    proof {
                        assert(find_top_kw(sub, i - lo, 0, want_or) == Some(i - lo));
                    }
                    return Some(i);
                }
            },
        }
        i += 1;
    }
    proof {
        assert(find_top_kw(sub, i - lo, d as int, want_or) is None);
    }
    None
}

/// Finds the closing parenthesis matching an opener at `lo`, scanning
/// `[lo + 1, hi)`.
fn find_match_exec(ts: &Vec<Token>, lo: usize, hi: usize) -> (r: Option<usize>)
    requires
        lo < hi <= ts@.len(),
    ensures
        ({
            let sub = ts.deep_view().subrange(lo as int, hi as int);
            match r {
                Some(m) => lo < m < hi && find_match(sub, 1, 1) == Some(m - lo),
                None => find_match(sub, 1, 1) is None,
            }
        }),
{
    let ghost sub = ts.deep_view().subrange(lo as int, hi as int);
    let mut i: usize = lo + 1;
    let mut d: i128 = 1;
    while i < hi
        invariant
            lo + 1 <= i <= hi <= ts@.len(),
            sub == ts.deep_view().subrange(lo as int, hi as int),
            1 - (i as int) <= d as int <= i as int,
            find_match(sub, 1, 1) == find_match(sub, i - lo, d as int),
        decreases hi - i,
    {
        proof {
            assert(sub[i - lo] == ts.deep_view()[i as int]);
        }
        match &ts[i] {
            Token::LParen => {
                d += 1;
            },
            Token::RParen => {
                if d == 1 {
                    proof {
                        assert(find_match(sub, i - lo, 1) == Some(i - lo));
                    }
                    return Some(i);
                }
                d -= 1;
            },
            _ => {},
        }
        i += 1;
    }
    proof {
        assert(find_match(sub, i - lo, d as int) is None);
    }
    None
}

fn cpe(detail: &str) -> (r: DbError)
    ensures
        r@ matches DbErrorV::ConditionParseError(_),
{
    DbError::ConditionParseError(String::from_str(detail))
}

/// Reads one comparison from `[lo, hi)`.
fn parse_cmp_exec(cols: &Vec<Column>, ts: &Vec<Token>, lo: usize, hi: usize) -> (r: Result<
    Predicate,
    DbError,
>)
    requires
        lo <= hi <= ts@.len(),
    ensures
        ({
            let sub = ts.deep_view().subrange(lo as int, hi as int);
            match r {
                Ok(p) => parse_cmp_spec(cols.deep_view(), sub) == Some(p@) && pred_wf(
                    p@,
                    cols.deep_view().len() as int,
                ),
                Err(e) => parse_cmp_spec(cols.deep_view(), sub) is None && (e@ matches
                    DbErrorV::ConditionParseError(_)),
            }
        }),
{
    let ghost sub = ts.deep_view().subrange(lo as int, hi as int);
    if hi - lo != 3 && hi - lo != 4 {
        return Err(cpe("expected 'column op value'"));
    }
    proof {
        assert(sub[0] == ts.deep_view()[lo as int]);
        assert(sub[1] == ts.deep_view()[lo as int + 1]);
        assert(sub[2] == ts.deep_view()[lo as int + 2]);
        if hi - lo == 4 {
            assert(sub[3] == ts.deep_view()[lo as int + 3]);
        }
    }
    let colname = match tok_text_exec(&ts[lo]) {
        Some(s) => s,
        None => {
            return Err(cpe("expected a column name"));
        },
    };
    let ci = match crate::model::find_col(cols, colname.as_str()) {
        Some(ci) => ci,
        None => {
            let mut d = String::from_str("unknown column ");
            d.append(colname.as_str());
            return Err(DbError::ConditionParseError(d));
        },
    };
    if hi - lo == 3 {
        match tok_cmp_op(&ts[lo + 1]) {
            Some(op) => {
                let lit = match tok_text_exec(&ts[lo + 2]) {
                    Some(s) => s,
                    None => {
                        return Err(cpe("expected a comparison value"));
                    },
                };
                Ok(Predicate::Compare { col: ci, op, literal: lit.clone() })
            },
            None => {
                if tok_is_is(&ts[lo + 1]) && tok_is_null(&ts[lo + 2]) {
                    Ok(Predicate::Null { col: ci, negated: false })
                } else {
                    Err(cpe("unsupported operator"))
                }
            },
        }
    } else {
        if tok_is_is(&ts[lo + 1]) && tok_is_not(&ts[lo + 2]) && tok_is_null(&ts[lo + 3]) {
            Ok(Predicate::Null { col: ci, negated: true })
        } else {
            Err(cpe("expected 'column IS NOT NULL'"))
        }
    }
}

/// Parses the condition over `[lo, hi)`: top-level `OR` first, then
/// top-level `AND`, then a parenthesized group, then a comparison.
fn parse_cond_exec(cols: &Vec<Column>, ts: &Vec<Token>, lo: usize, hi: usize) -> (r: Result<
    Predicate,
    DbError,
>)
    requires
        lo <= hi <= ts@.len(),
    ensures
        ({
            let sub = ts.deep_view().subrange(lo as int, hi as int);
            match r {
                Ok(p) => parse_cond_spec(cols.deep_view(), sub) == Some(p@) && pred_wf(
                    p@,
                    cols.deep_view().len() as int,
                ),
                Err(e) => parse_cond_spec(cols.deep_view(), sub) is None && (e@ matches
                    DbErrorV::ConditionParseError(_)),
            }
        }),
    decreases hi - lo,
{
    let ghost sub = ts.deep_view().subrange(lo as int, hi as int);
    if lo == hi {
        return Err(cpe("empty condition"));
    }
    if let Some(p) = find_top_exec(ts, lo, hi, true) {
        proof {
            assert(sub.take(p - lo) =~= ts.deep_view().subrange(lo as int, p as int));
            assert(sub.skip(p - lo + 1) =~= ts.deep_view().subrange(p as int + 1, hi as int));
        }
        let l = match parse_cond_exec(cols, ts, lo, p) {
            Ok(l) => l,
            Err(e) => {
                return Err(e);
            },
        };
        let rr = match parse_cond_exec(cols, ts, p + 1, hi) {
            Ok(rr) => rr,
            Err(e) => {
                return Err(e);
            },
        };
        return Ok(Predicate::Or(Box::new(l), Box::new(rr)));
    }
    if let Some(p) = find_top_exec(ts, lo, hi, false) {
        proof {
            assert(sub.take(p - lo) =~= ts.deep_view().subrange(lo as int, p as int));
            assert(sub.skip(p - lo + 1) =~= ts.deep_view().subrange(p as int + 1, hi as int));
        }
        let l = match parse_cond_exec(cols, ts, lo, p) {
            Ok(l) => l,
            Err(e) => {
                return Err(e);
            },
        };
        let rr = match parse_cond_exec(cols, ts, p + 1, hi) {
            Ok(rr) => rr,
            Err(e) => {
                return Err(e);
            },
        };
        return Ok(Predicate::And(Box::new(l), Box::new(rr)));
    }
    proof {
        assert(sub[0] == ts.deep_view()[lo as int]);
    }
    let is_lp = match &ts[lo] {
        Token::LParen => true,
        _ => false,
    };
    if is_lp {
        match find_match_exec(ts, lo, hi) {
            Some(m) => {
                if m == hi - 1 && hi - lo >= 2 {
                    proof {
                        assert(sub.subrange(1, sub.len() - 1) =~= ts.deep_view().subrange(
                            lo as int + 1,
                            hi as int - 1,
                        ));
                    }
                    return parse_cond_exec(cols, ts, lo + 1, hi - 1);
                }
            },
            None => {},
        }
    }
    parse_cmp_exec(cols, ts, lo, hi)
}

impl crate::model::Database {
    /// Compiles a condition string against a table's column layout into
    /// a reusable predicate. The compiled predicate is table-shape
    /// specific: it holds positions into this table's schema.
    pub fn parse_condition(cond: &str, table: &crate::model::Table) -> (r: Result<
        Predicate,
        DbError,
    >)
        ensures
            match r {
                Ok(p) => compile_spec(table@.columns, cond@) == Some(p@) && pred_wf(
                    p@,
                    table@.columns.len() as int,
                ),
                Err(e) => compile_spec(table@.columns, cond@) is None && (e@ matches
                    DbErrorV::ConditionParseError(_)),
            },
    {
        let toks = match tokenize(cond) {
            Ok(ts) => ts,
            Err(e) => {
                return Err(e);
            },
        };
        proof {
            assert(toks.deep_view().subrange(0, toks.deep_view().len() as int) =~= toks.deep_view());
        }
        parse_cond_exec(&table.columns, &toks, 0, toks.len())
    }
}

} // verus!
