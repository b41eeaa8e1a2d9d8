//! Cell-level value logic: character classification, trimming, the NULL
//! sentinel test, quote stripping, normalization on write, and 32-bit
//! integer parsing.
//!
//! A cell is a plain string. The empty string is the sole NULL sentinel;
//! the token `NULL` (ASCII case-insensitive, surrounded by optional
//! whitespace) supplied by a caller is normalized to the empty string on
//! write. Case-insensitivity and whitespace are ASCII throughout.

use vstd::prelude::*;
use vstd::string::*;

verus! {

/// ASCII whitespace, the characters the engine treats as blank.
pub open spec fn is_space(c: char) -> bool {
    c == ' ' || c == '\t' || c == '\n' || c == '\r'
}

/// ASCII lowercasing of a single character.
pub open spec fn to_lower(c: char) -> char {
    if 'A' <= c && c <= 'Z' {
        ((c as u8) + 32) as char
    } else {
        c
    }
}

/// ASCII lowercasing of a character sequence.
pub open spec fn lower_seq(s: Seq<char>) -> Seq<char> {
    s.map_values(|c: char| to_lower(c))
}

/// `s` with leading ASCII whitespace removed.
pub open spec fn drop_leading(s: Seq<char>) -> Seq<char>
    decreases s.len(),
{
    if s.len() > 0 && is_space(s[0]) {
        drop_leading(s.drop_first())
    } else {
        s
    }
}

/// `s` with trailing ASCII whitespace removed.
pub open spec fn drop_trailing(s: Seq<char>) -> Seq<char>
    decreases s.len(),
{
    if s.len() > 0 && is_space(s[s.len() - 1]) {
        drop_trailing(s.drop_last())
    } else {
        s
    }
}

/// `s` with leading and trailing ASCII whitespace removed.
pub open spec fn trimmed(s: Seq<char>) -> Seq<char> {
    drop_trailing(drop_leading(s))
}

/// The NULL test: a cell is NULL when, after trimming, it is empty or
/// spells `null` in any ASCII case.
pub open spec fn is_null_cell(s: Seq<char>) -> bool {
    let t = trimmed(s);
    t.len() == 0 || (t.len() == 4 && to_lower(t[0]) == 'n' && to_lower(t[1]) == 'u'
        && to_lower(t[2]) == 'l' && to_lower(t[3]) == 'l')
}

/// Whether `s` is wrapped in a matching pair of single or double quotes.
pub open spec fn has_outer_quotes(s: Seq<char>) -> bool {
    s.len() >= 2 && (s[0] == '"' || s[0] == '\'') && s[s.len() - 1] == s[0]
}

/// `s` with one matching pair of outer quotes removed, if present.
pub open spec fn strip_quotes(s: Seq<char>) -> Seq<char> {
    if has_outer_quotes(s) {
        s.subrange(1, s.len() - 1)
    } else {
        s
    }
}

/// Normalization applied to every cell before it is written: a quoted
/// value keeps its inner text verbatim (so a quoted `'null'` stays the
/// four-letter word), an unquoted `NULL` token becomes the empty-string
/// sentinel, and anything else is stored as given.
pub open spec fn normalize_cell(s: Seq<char>) -> Seq<char> {
    if has_outer_quotes(s) {
        strip_quotes(s)
    } else if is_null_cell(s) && trimmed(s).len() == 4 {
        Seq::empty()
    } else {
        s
    }
}

/// The numeric value of a digit sequence, most significant first.
pub open spec fn digits_value(s: Seq<char>) -> int
    decreases s.len(),
{
    if s.len() == 0 {
        0
    } else {
        digits_value(s.drop_last()) * 10 + (s[s.len() - 1] as int - '0' as int)
    }
}

pub open spec fn is_digit(c: char) -> bool {
    '0' <= c && c <= '9'
}

pub open spec fn all_digits(s: Seq<char>) -> bool {
    forall|i: int| 0 <= i < s.len() ==> is_digit(#[trigger] s[i])
}

/// The digit part of an integer literal: everything after an optional
/// leading sign.
pub open spec fn int_digits(s: Seq<char>) -> Seq<char> {
    if s.len() > 0 && (s[0] == '+' || s[0] == '-') {
        s.drop_first()
    } else {
        s
    }
}

/// The signed mathematical value an integer literal denotes, ignoring range.
pub open spec fn int_value(s: Seq<char>) -> int {
    if s.len() > 0 && s[0] == '-' {
        -digits_value(int_digits(s))
    } else {
        digits_value(int_digits(s))
    }
}

/// Whether `s` is a well-formed 32-bit signed integer literal: an optional
/// sign, at least one digit, nothing else, and a value within `i32` range.
pub open spec fn is_i32_literal(s: Seq<char>) -> bool {
    let d = int_digits(s);
    d.len() > 0 && all_digits(d) && i32::MIN <= int_value(s) <= i32::MAX
}

/// The value a cell contributes to a numeric comparison: its `i32` value
/// when it parses as one, and 0 otherwise (the permissive policy for
/// unparsable cells).
pub open spec fn numeric_value(s: Seq<char>) -> int {
    if is_i32_literal(s) {
        int_value(s)
    } else {
        0
    }
}

/// Lowercasing is idempotent: lowering an already-lowered sequence
/// changes nothing.
pub proof fn lemma_lower_seq_idempotent(s: Seq<char>)
    ensures
        lower_seq(lower_seq(s)) == lower_seq(s),
{
    assert forall|i: int| 0 <= i < s.len() implies to_lower(to_lower(s[i])) == to_lower(
        s[i],
    ) by {
        if 'A' <= s[i] && s[i] <= 'Z' {
            assert(to_lower(s[i]) == ((s[i] as u8) + 32) as char);
        }
    }
    assert(lower_seq(lower_seq(s)) =~= lower_seq(s));
}

/// Relies on String::push: appends the given character to the end of the
/// string.
#[verifier::external_body]
pub fn push_char(s: &mut String, c: char)
    ensures
        final(s)@ == old(s)@.push(c),
{
    s.push(c);
}

/// The characters of `s`, in order, as a vector.
pub fn str_chars(s: &str) -> (v: Vec<char>)
    ensures
        v@ == s@,
{
    let n = s.unicode_len();
    let mut v: Vec<char> = Vec::new();
    let mut i: usize = 0;
    while i < n
        invariant
            i <= n,
            n == s@.len(),
            v@ == s@.subrange(0, i as int),
        decreases n - i,
    {
        v.push(s.get_char(i));
        proof {
            assert(v@ =~= s@.subrange(0, i + 1));
        }
        i += 1;
    }
    proof {
        assert(v@ =~= s@);
    }
    v
}

/// The string spelling out the given characters in order.
pub fn chars_to_string(v: &Vec<char>) -> (s: String)
    ensures
        s@ == v@,
{
    let mut s = String::new();
    let mut i: usize = 0;
    while i < v.len()
        invariant
            i <= v@.len(),
            s@ == v@.subrange(0, i as int),
        decreases v@.len() - i,
    {
        push_char(&mut s, v[i]);
        proof {
            assert(s@ =~= v@.subrange(0, i + 1));
        }
        i += 1;
    }
    proof {
        assert(s@ =~= v@);
    }
    s
}

fn is_space_c(c: char) -> (r: bool)
    ensures
        r == is_space(c),
{
    c == ' ' || c == '\t' || c == '\n' || c == '\r'
}

pub fn lower_c(c: char) -> (r: char)
    ensures
        r == to_lower(c),
{
    if 'A' <= c && c <= 'Z' {
        ((c as u8) + 32) as char
    } else {
        c
    }
}

/// Whether two strings are equal character for character.
pub fn str_eq(a: &str, b: &str) -> (r: bool)
    ensures
        r == (a@ == b@),
{
    let na = a.unicode_len();
    let nb = b.unicode_len();
    if na != nb {
        return false;
    }
    let mut i: usize = 0;
    while i < na
        invariant
            i <= na,
            na == a@.len(),
            na == b@.len(),
            forall|k: int| 0 <= k < i ==> a@[k] == b@[k],
        decreases na - i,
    {
        if a.get_char(i) != b.get_char(i) {
            return false;
        }
        i += 1;
    }
    proof {
        assert(a@ =~= b@);
    }
    true
}

/// Whether two strings are equal up to ASCII case.
pub fn str_eq_ic(a: &str, b: &str) -> (r: bool)
    ensures
        r == (lower_seq(a@) == lower_seq(b@)),
{
    let na = a.unicode_len();
    let nb = b.unicode_len();
    if na != nb {
        proof {
            assert(lower_seq(a@).len() != lower_seq(b@).len());
        }
        return false;
    }
    let mut i: usize = 0;
    while i < na
        invariant
            i <= na,
            na == a@.len(),
            na == b@.len(),
            forall|k: int| 0 <= k < i ==> to_lower(a@[k]) == to_lower(b@[k]),
        decreases na - i,
    {
        if lower_c(a.get_char(i)) != lower_c(b.get_char(i)) {
            proof {
                assert(lower_seq(a@)[i as int] != lower_seq(b@)[i as int]);
            }
            return false;
        }
        i += 1;
    }
    proof {
        assert(lower_seq(a@) =~= lower_seq(b@));
    }
    true
}

/// The ASCII-lowercased copy of a string.
pub fn lower_str(s: &str) -> (r: String)
    ensures
        r@ == lower_seq(s@),
{
    let v = str_chars(s);
    let mut out: Vec<char> = Vec::new();
    let mut i: usize = 0;
    while i < v.len()
        invariant
            i <= v@.len(),
            v@ == s@,
            out@ =~= lower_seq(s@).subrange(0, i as int),
        decreases v@.len() - i,
    {
        out.push(lower_c(v[i]));
        proof {
            assert(out@ =~= lower_seq(s@).subrange(0, i + 1));
        }
        i += 1;
    }
    proof {
        assert(out@ =~= lower_seq(s@));
    }
    chars_to_string(&out)
}

/// The bounds of the whitespace-trimmed region of `v`: `trimmed(v@)` is
/// exactly `v@` between the two returned indices.
pub fn trim_bounds(v: &Vec<char>) -> (r: (usize, usize))
    ensures
        r.0 <= r.1 <= v@.len(),
        trimmed(v@) == v@.subrange(r.0 as int, r.1 as int),
{
    let n = v.len();
    let mut lo: usize = 0;
    proof {
        assert(v@.skip(0) =~= v@);
    }
    while lo < n && is_space_c(v[lo])
        invariant
            lo <= n,
            n == v@.len(),
            drop_leading(v@) == drop_leading(v@.skip(lo as int)),
        decreases n - lo,
    {
        proof {
            assert(v@.skip(lo as int).drop_first() =~= v@.skip(lo as int + 1));
        }
        lo += 1;
    }
    proof {
        if lo == n {
            assert(v@.skip(lo as int) =~= Seq::<char>::empty());
        }
        assert(drop_leading(v@) == v@.skip(lo as int));
    }
    let mut hi: usize = n;
    proof {
        assert(v@.skip(lo as int).take(n - lo) =~= v@.skip(lo as int));
    }
    while hi > lo && is_space_c(v[hi - 1])
        invariant
            lo <= hi <= n,
            n == v@.len(),
            drop_leading(v@) == v@.skip(lo as int),
            drop_trailing(v@.skip(lo as int)) == drop_trailing(
                v@.skip(lo as int).take(hi - lo),
            ),
        decreases hi,
    {
        proof {
            let t = v@.skip(lo as int).take(hi - lo);
            assert(t[t.len() - 1] == v@[hi - 1]);
            assert(t.drop_last() =~= v@.skip(lo as int).take(hi - 1 - lo));
        }
        hi -= 1;
    }
    proof {
        let t = v@.skip(lo as int).take(hi - lo);
        if hi == lo {
            assert(t =~= Seq::<char>::empty());
        } else {
            assert(t[t.len() - 1] == v@[hi - 1]);
        }
        assert(drop_trailing(v@.skip(lo as int)) == t);
        assert(t =~= v@.subrange(lo as int, hi as int));
    }
    (lo, hi)
}

/// The whitespace-trimmed copy of a string.
pub fn trim_str(s: &str) -> (r: String)
    ensures
        r@ == trimmed(s@),
{
    let v = str_chars(s);
    let (lo, hi) = trim_bounds(&v);
    let mut mid: Vec<char> = Vec::new();
    let mut i: usize = lo;
    while i < hi
        invariant
            lo <= i <= hi <= v@.len(),
            mid@ =~= v@.subrange(lo as int, i as int),
        decreases hi - i,
    {
        mid.push(v[i]);
        proof {
            assert(mid@ =~= v@.subrange(lo as int, i + 1));
        }
        i += 1;
    }
    chars_to_string(&mid)
}

/// The NULL test on a string: empty or the word `null` once trimmed.
pub fn is_null_str(s: &str) -> (r: bool)
    ensures
        r == is_null_cell(s@),
{
    let v = str_chars(s);
    let (lo, hi) = trim_bounds(&v);
    if hi - lo == 0 {
        true
    } else if hi - lo == 4 {
        let r = lower_c(v[lo]) == 'n' && lower_c(v[lo + 1]) == 'u' && lower_c(v[lo + 2]) == 'l'
            && lower_c(v[lo + 3]) == 'l';
        proof {
            let t = trimmed(s@);
            assert(t[0] == v@[lo as int]);
            assert(t[1] == v@[lo as int + 1]);
            assert(t[2] == v@[lo as int + 2]);
            assert(t[3] == v@[lo as int + 3]);
        }
        r
    } else {
        false
    }
}

/// The normalized form of a cell value, as written to storage.
pub fn normalize_cell_str(s: &str) -> (r: String)
    ensures
        r@ == normalize_cell(s@),
{
    let v = str_chars(s);
    let n = v.len();
    if n >= 2 && (v[0] == '"' || v[0] == '\'') && v[n - 1] == v[0] {
        let mut inner: Vec<char> = Vec::new();
        let mut i: usize = 1;
        while i < n - 1
            invariant
                1 <= i <= n - 1,
                n == v@.len(),
                n >= 2,
                inner@ =~= v@.subrange(1, i as int),
            decreases n - i,
        {
            inner.push(v[i]);
            proof {
                assert(inner@ =~= v@.subrange(1, i + 1));
            }
            i += 1;
        }
        chars_to_string(&inner)
    } else {
        let (lo, hi) = trim_bounds(&v);
        let is_null_word = hi - lo == 4 && lower_c(v[lo]) == 'n' && lower_c(v[lo + 1]) == 'u'
            && lower_c(v[lo + 2]) == 'l' && lower_c(v[lo + 3]) == 'l';
        proof {
            let t = trimmed(s@);
            if hi - lo == 4 {
                assert(t[0] == v@[lo as int]);
                assert(t[1] == v@[lo as int + 1]);
                assert(t[2] == v@[lo as int + 2]);
                assert(t[3] == v@[lo as int + 3]);
            }
        }
        if is_null_word {
            String::new()
        } else {
            s.to_owned()
        }
    }
}

/// The copy of a string with one matching pair of outer quotes removed,
/// if present.
pub fn strip_quotes_str(s: &str) -> (r: String)
    ensures
        r@ == strip_quotes(s@),
{
    let v = str_chars(s);
    let n = v.len();
    if n >= 2 && (v[0] == '"' || v[0] == '\'') && v[n - 1] == v[0] {
        let mut inner: Vec<char> = Vec::new();
        let mut i: usize = 1;
        while i < n - 1
            invariant
                1 <= i <= n - 1,
                n == v@.len(),
                n >= 2,
                inner@ =~= v@.subrange(1, i as int),
            decreases n - i,
        {
            inner.push(v[i]);
            proof {
                assert(inner@ =~= v@.subrange(1, i + 1));
            }
            i += 1;
        }
        chars_to_string(&inner)
    } else {
        s.to_owned()
    }
}

pub proof fn lemma_all_digits_nonneg(s: Seq<char>)
    requires
        all_digits(s),
    ensures
        digits_value(s) >= 0,
    decreases s.len(),
{
    if s.len() > 0 {
        assert(all_digits(s.drop_last()));
        lemma_all_digits_nonneg(s.drop_last());
    }
}

/// Parses a 32-bit signed integer literal: an optional sign followed by
/// decimal digits, rejected when out of range or malformed.
pub fn parse_i32_str(s: &str) -> (r: Option<i32>)
    ensures
        match r {
            Some(x) => is_i32_literal(s@) && x as int == int_value(s@),
            None => !is_i32_literal(s@),
        },
{
    let v = str_chars(s);
    let n = v.len();
    let has_sign = n > 0 && (v[0] == '+' || v[0] == '-');
    let neg = n > 0 && v[0] == '-';
    let start: usize = if has_sign {
        1
    } else {
        0
    };
    proof {
        if has_sign {
            assert(int_digits(s@) =~= v@.skip(1));
        } else {
            assert(int_digits(s@) =~= v@);
        }
    }
    if n == start {
        return None;
    }
    let ghost d = int_digits(s@);
    let mut acc: u64 = 0;
    let mut over = false;
    let mut i: usize = start;
    while i < n
        invariant
            start <= i <= n,
            n == v@.len(),
            start == 0 || start == 1,
            d == int_digits(s@),
            d =~= v@.skip(start as int),
            all_digits(d.take(i - start)),
            over ==> digits_value(d.take(i - start)) > 2147483648,
            !over ==> acc as int == digits_value(d.take(i - start)) && acc <= 2147483648,
        decreases n - i,
    {
        let c = v[i];
        if !('0' <= c && c <= '9') {
            proof {
                assert(d[i - start] == c);
                assert(!all_digits(d));
            }
            return None;
        }
        let dig: u64 = (c as u64) - 48;
        proof {
            let p = d.take(i - start);
            assert(p.push(c) =~= d.take(i + 1 - start));
            assert(d.take(i + 1 - start).drop_last() =~= p);
            lemma_all_digits_nonneg(p);
        }
        if over {
            proof {
                let p = d.take(i - start);
                lemma_all_digits_nonneg(p);
                assert(digits_value(d.take(i + 1 - start)) == digits_value(p) * 10 + (c as int
                    - '0' as int));
            }
        } else {
            let nv: u64 = acc * 10 + dig;
            if nv > 2147483648 {
                over = true;
            } else {
                acc = nv;
            }
        }
        i += 1;
    }
    proof {
        assert(d.take(i - start) =~= d);
    }
    if over {
        proof {
            lemma_all_digits_nonneg(d);
            if s@.len() > 0 && s@[0] == '-' {
                assert(int_value(s@) < i32::MIN);
            } else {
                assert(int_value(s@) > i32::MAX);
            }
        }
        None
    } else if neg {
        if acc == 2147483648 {
            Some(i32::MIN)
        } else {
            Some(-(acc as i32))
        }
    } else {
        if acc > 2147483647 {
            None
        } else {
            Some(acc as i32)
        }
    }
}

/// The numeric reading of a cell: its integer value, or 0 when it does
/// not parse (the permissive comparison policy).
pub fn to_i32_or_0(s: &str) -> (r: i32)
    ensures
        r as int == numeric_value(s@),
{
    match parse_i32_str(s) {
        Some(x) => x,
        None => 0,
    }
}

} // verus!

