//! Splitting source text into tokens.
//!
//! Words are the maximal runs of non-whitespace characters; each maps to
//! exactly one token.  Lines are counted from 0 by the `\n` characters
//! before a word.
use vstd::prelude::*;

use crate::token::Token;
use crate::transport::chars_of;

verus! {

/// A word that is no token.
#[derive(Debug, PartialEq, Eq)]
pub enum LexError {
    /// The line (from 0) and the word.
    UnknownToken(usize, String),
}

/// Whitespace as `char::is_whitespace` defines it (the Unicode `White_Space` set).
pub open spec fn is_ws(c: char) -> bool {
    c == '\t' || c == '\n' || c == '\u{0b}' || c == '\u{0c}' || c == '\r' || c == ' ' || c
        == '\u{85}' || c == '\u{a0}' || c == '\u{1680}' || ('\u{2000}' <= c && c <= '\u{200a}')
        || c == '\u{2028}' || c == '\u{2029}' || c == '\u{202f}' || c == '\u{205f}' || c
        == '\u{3000}'
}

pub open spec fn is_digit(c: char) -> bool {
    '0' <= c && c <= '9'
}

pub open spec fn all_digits(w: Seq<char>) -> bool {
    forall|i: int| 0 <= i < w.len() ==> is_digit(#[trigger] w[i])
}

/// The number written in decimal by `w`.
pub open spec fn digits_val(w: Seq<char>) -> nat
    decreases w.len(),
{
    if w.len() == 0 {
        0
    } else {
        10 * digits_val(w.drop_last()) + (w.last() as nat - '0' as nat) as nat
    }
}

/// `w` read as an `i64` the way `str::parse::<i64>` reads it: an optional
/// `+` or `-`, then one or more decimal digits, within range.
pub open spec fn parse_i64(w: Seq<char>) -> Option<i64> {
    if w.len() == 0 {
        None
    } else {
        let signed = w[0] == '-' || w[0] == '+';
        let d = if signed {
            w.subrange(1, w.len() as int)
        } else {
            w
        };
        if d.len() == 0 || !all_digits(d) {
            None
        } else {
            let m = digits_val(d);
            let v: int = if w[0] == '-' {
                -m
            } else {
                m as int
            };
            if i64::MIN <= v <= i64::MAX {
                Some(v as i64)
            } else {
                None
            }
        }
    }
}

/// `w` read as a variable: `:` or `x`, then decimal digits that fit a `u64`.
pub open spec fn parse_var(w: Seq<char>) -> Option<u64> {
    if w.len() >= 2 && (w[0] == ':' || w[0] == 'x') {
        let d = w.subrange(1, w.len() as int);
        if all_digits(d) && digits_val(d) <= u64::MAX {
            Some(digits_val(d) as u64)
        } else {
            None
        }
    } else {
        None
    }
}

/// The named words.
pub open spec fn keyword(w: Seq<char>) -> Option<Token> {
    if w == seq!['a', 'p'] {
        Some(Token::App)
    } else if w == seq!['c', 'o', 'n', 's'] {
        Some(Token::Cons)
    } else if w == seq!['c', 'a', 'r'] {
        Some(Token::Car)
    } else if w == seq!['c', 'd', 'r'] {
        Some(Token::Cdr)
    } else if w == seq!['n', 'i', 'l'] {
        Some(Token::Nil)
    } else if w == seq!['i', 's', 'n', 'i', 'l'] {
        Some(Token::IsNil)
    } else if w == seq!['='] {
        Some(Token::Assign)
    } else if w == seq!['e', 'q'] {
        Some(Token::Eq)
    } else if w == seq!['l', 't'] {
        Some(Token::Lt)
    } else if w == seq!['a', 'd', 'd'] {
        Some(Token::Add)
    } else if w == seq!['m', 'u', 'l'] {
        Some(Token::Mul)
    } else if w == seq!['d', 'i', 'v'] {
        Some(Token::Div)
    } else if w == seq!['n', 'e', 'g'] {
        Some(Token::Neg)
    } else if w == seq!['i', 'n', 'c'] {
        Some(Token::Inc)
    } else if w == seq!['d', 'e', 'c'] {
        Some(Token::Dec)
    } else if w == seq!['b'] {
        Some(Token::B)
    } else if w == seq!['c'] {
        Some(Token::C)
    } else if w == seq!['s'] {
        Some(Token::S)
    } else if w == seq!['i'] {
        Some(Token::I)
    } else if w == seq!['t'] {
        Some(Token::Bool(true))
    } else if w == seq!['f'] {
        Some(Token::Bool(false))
    } else if w == seq!['g', 'a', 'l', 'a', 'x', 'y'] {
        Some(Token::Galaxy)
    } else {
        None
    }
}

/// The token of a word: an integer, else a variable, else a named word.
pub open spec fn word_token(w: Seq<char>) -> Option<Token> {
    match parse_i64(w) {
        Some(v) => Some(Token::Int(v)),
        None => match parse_var(w) {
            Some(v) => Some(Token::Var(v)),
            None => keyword(w),
        },
    }
}

/// The end of the word that starts at `k`.
pub open spec fn word_end(s: Seq<char>, k: int) -> int
    decreases s.len() - k,
{
    if 0 <= k < s.len() && !is_ws(s[k]) {
        word_end(s, k + 1)
    } else {
        k
    }
}

/// The tokens of `s` from position `k` on, `line` being the line of `k`;
/// or the line and the first word that is no token.
pub open spec fn lex_from(s: Seq<char>, k: int, line: nat) -> Result<Seq<Token>, (nat, Seq<char>)>
    decreases s.len() - k,
{
    if k < 0 || k >= s.len() {
        Ok(Seq::empty())
    } else if s[k] == '\n' {
        lex_from(s, k + 1, line + 1)
    } else if is_ws(s[k]) {
        lex_from(s, k + 1, line)
    } else {
        let e = word_end(s, k);
        if e <= k || e > s.len() {
            Ok(Seq::empty())
        } else {
            match word_token(s.subrange(k, e)) {
                None => Err((line, s.subrange(k, e))),
                Some(t) => match lex_from(s, e, line) {
                    Ok(ts) => Ok(seq![t] + ts),
                    Err(x) => Err(x),
                },
            }
        }
    }
}

/// The tokens of a whole text.
pub open spec fn lex_spec(s: Seq<char>) -> Result<Seq<Token>, (nat, Seq<char>)> {
    lex_from(s, 0, 0)
}

/// `ts` followed by the outcome `r`.
pub open spec fn prepend(ts: Seq<Token>, r: Result<Seq<Token>, (nat, Seq<char>)>) -> Result<
    Seq<Token>,
    (nat, Seq<char>),
> {
    match r {
        Ok(rest) => Ok(ts + rest),
        Err(x) => Err(x),
    }
}

/// Relies on `String: FromIterator<char>`: collecting characters gives a
/// string of those characters in order.
#[verifier::external_body]
fn collect_chars(cs: &Vec<char>, a: usize, e: usize) -> (r: String)
    requires
        a <= e <= cs@.len(),
    ensures
        r@ == cs@.subrange(a as int, e as int),
{
    cs[a..e].iter().collect()
}

fn is_ws_char(c: char) -> (r: bool)
    ensures
        r == is_ws(c),
{
    c == '\t' || c == '\n' || c == '\u{0b}' || c == '\u{0c}' || c == '\r' || c == ' ' || c
        == '\u{85}' || c == '\u{a0}' || c == '\u{1680}' || ('\u{2000}' <= c && c <= '\u{200a}')
        || c == '\u{2028}' || c == '\u{2029}' || c == '\u{202f}' || c == '\u{205f}' || c
        == '\u{3000}'
}

/// Whether `s[a..e]` is the word `kw`.
fn same_word(s: &Vec<char>, a: usize, e: usize, kw: &[char]) -> (r: bool)
    requires
        a <= e <= s@.len(),
    ensures
        r == (s@.subrange(a as int, e as int) == kw@),
{
    if e - a != kw.len() {
        return false;
    }
    let mut i: usize = 0;
    while i < kw.len()
        invariant
            a <= e <= s@.len(),
            e - a == kw@.len(),
            i <= kw@.len(),
            forall|j: int| 0 <= j < i ==> s@[a + j] == kw@[j],
        decreases kw@.len() - i,
    {
        if s[a + i] != kw[i] {
            assert(s@.subrange(a as int, e as int)[i as int] != kw@[i as int]);
            return false;
        }
        i = i + 1;
    }
    assert(s@.subrange(a as int, e as int) =~= kw@);
    true
}

/// The named word `s[a..e]`, if it is one.
fn keyword_of(s: &Vec<char>, a: usize, e: usize) -> (r: Option<Token>)
    requires
        a <= e <= s@.len(),
    ensures
        r == keyword(s@.subrange(a as int, e as int)),
{
    let ghost w = s@.subrange(a as int, e as int);
    if same_word(s, a, e, &['a', 'p']) {
        assert(['a', 'p']@ =~= seq!['a', 'p']);
        Some(Token::App)
    } else if same_word(s, a, e, &['c', 'o', 'n', 's']) {
        assert(['c', 'o', 'n', 's']@ =~= seq!['c', 'o', 'n', 's']);
        Some(Token::Cons)
    } else if same_word(s, a, e, &['c', 'a', 'r']) {
        assert(['c', 'a', 'r']@ =~= seq!['c', 'a', 'r']);
        Some(Token::Car)
    } else if same_word(s, a, e, &['c', 'd', 'r']) {
        assert(['c', 'd', 'r']@ =~= seq!['c', 'd', 'r']);
        Some(Token::Cdr)
    } else if same_word(s, a, e, &['n', 'i', 'l']) {
        assert(['n', 'i', 'l']@ =~= seq!['n', 'i', 'l']);
        Some(Token::Nil)
    } else if same_word(s, a, e, &['i', 's', 'n', 'i', 'l']) {
        assert(['i', 's', 'n', 'i', 'l']@ =~= seq!['i', 's', 'n', 'i', 'l']);
        Some(Token::IsNil)
    } else if same_word(s, a, e, &['=']) {
        assert(['=']@ =~= seq!['=']);
        Some(Token::Assign)
    } else if same_word(s, a, e, &['e', 'q']) {
        assert(['e', 'q']@ =~= seq!['e', 'q']);
        Some(Token::Eq)
    } else if same_word(s, a, e, &['l', 't']) {
        assert(['l', 't']@ =~= seq!['l', 't']);
        Some(Token::Lt)
    } else if same_word(s, a, e, &['a', 'd', 'd']) {
        assert(['a', 'd', 'd']@ =~= seq!['a', 'd', 'd']);
        Some(Token::Add)
    } else if same_word(s, a, e, &['m', 'u', 'l']) {
        assert(['m', 'u', 'l']@ =~= seq!['m', 'u', 'l']);
        Some(Token::Mul)
    } else if same_word(s, a, e, &['d', 'i', 'v']) {
        assert(['d', 'i', 'v']@ =~= seq!['d', 'i', 'v']);
        Some(Token::Div)
    } else if same_word(s, a, e, &['n', 'e', 'g']) {
        assert(['n', 'e', 'g']@ =~= seq!['n', 'e', 'g']);
        Some(Token::Neg)
    } else if same_word(s, a, e, &['i', 'n', 'c']) {
        assert(['i', 'n', 'c']@ =~= seq!['i', 'n', 'c']);
        Some(Token::Inc)
    } else if same_word(s, a, e, &['d', 'e', 'c']) {
        assert(['d', 'e', 'c']@ =~= seq!['d', 'e', 'c']);
        Some(Token::Dec)
    } else if same_word(s, a, e, &['b']) {
        assert(['b']@ =~= seq!['b']);
        Some(Token::B)
    } else if same_word(s, a, e, &['c']) {
        assert(['c']@ =~= seq!['c']);
        Some(Token::C)
    } else if same_word(s, a, e, &['s']) {
        assert(['s']@ =~= seq!['s']);
        Some(Token::S)
    } else if same_word(s, a, e, &['i']) {
        assert(['i']@ =~= seq!['i']);
        Some(Token::I)
    } else if same_word(s, a, e, &['t']) {
        assert(['t']@ =~= seq!['t']);
        Some(Token::Bool(true))
    } else if same_word(s, a, e, &['f']) {
        assert(['f']@ =~= seq!['f']);
        Some(Token::Bool(false))
    } else if same_word(s, a, e, &['g', 'a', 'l', 'a', 'x', 'y']) {
        assert(['g', 'a', 'l', 'a', 'x', 'y']@ =~= seq!['g', 'a', 'l', 'a', 'x', 'y']);
        Some(Token::Galaxy)
    } else {
        None
    }
}

/// A prefix of a run of digits is worth no more than the run.
proof fn lemma_digits_prefix(w: Seq<char>, k: int)
    requires
        0 <= k <= w.len(),
        all_digits(w),
    ensures
        digits_val(w.subrange(0, k)) <= digits_val(w),
    decreases w.len() - k,
{
    if k < w.len() {
        lemma_digits_prefix(w, k + 1);
        let p = w.subrange(0, k + 1);
        assert(p.drop_last() =~= w.subrange(0, k));
        assert(is_digit(p.last()));
    } else {
        assert(w.subrange(0, k) =~= w);
    }
}

/// The decimal number `s[a..e]` when it is all digits and at most `limit`.
fn read_digits(s: &Vec<char>, a: usize, e: usize, limit: u64) -> (r: Option<u64>)
    requires
        a <= e <= s@.len(),
    ensures
        r == (if all_digits(s@.subrange(a as int, e as int)) && digits_val(
            s@.subrange(a as int, e as int),
        ) <= limit {
            Some(digits_val(s@.subrange(a as int, e as int)) as u64)
        } else {
            None::<u64>
        }),
{
    let ghost w = s@.subrange(a as int, e as int);
    let mut acc: u64 = 0;
    let mut k = a;
    assert(w.subrange(0, 0) =~= Seq::<char>::empty());
    while k < e
        invariant
            a <= k <= e <= s@.len(),
            w == s@.subrange(a as int, e as int),
            all_digits(w.subrange(0, k - a)),
            acc == digits_val(w.subrange(0, k - a)),
            acc <= limit,
        decreases e - k,
    {
        let ch = s[k];
        assert(w[k - a] == ch);
        if !('0' <= ch && ch <= '9') {
            assert(!all_digits(w));
            return None;
        }
        let d: u64 = (ch as u32 - '0' as u32) as u64;
        let ghost p = w.subrange(0, k - a + 1);
        assert(p.drop_last() =~= w.subrange(0, k - a));
        assert(p.last() == ch);
        assert(all_digits(p));
        if d > limit || acc > (limit - d) / 10 {
            proof {
                assert(acc * 10 + d > limit) by (nonlinear_arith)
                    requires
                        d > limit || acc > (limit - d) / 10,
                        d <= limit ==> (limit - d) / 10 * 10 + 10 > limit - d,
                {
                }
                if all_digits(w) {
                    lemma_digits_prefix(w, k - a + 1);
                }
            }
            return None;
        }
        assert(acc * 10 + d <= limit) by (nonlinear_arith)
            requires
                d <= limit,
                acc <= (limit - d) / 10,
                (limit - d) / 10 * 10 <= limit - d,
        {
        }
        acc = acc * 10 + d;
        k = k + 1;
    }
    assert(w.subrange(0, k - a) =~= w);
    Some(acc)
}

/// `s[a..e]` read as an `i64`.
fn parse_i64_at(s: &Vec<char>, a: usize, e: usize) -> (r: Option<i64>)
    requires
        a <= e <= s@.len(),
    ensures
        r == parse_i64(s@.subrange(a as int, e as int)),
{
    let ghost w = s@.subrange(a as int, e as int);
    if a == e {
        return None;
    }
    let first = s[a];
    assert(w[0] == first);
    let neg = first == '-';
    let start = if first == '-' || first == '+' { a + 1 } else { a };
    assert(start == a + 1 ==> w.subrange(1, w.len() as int) =~= s@.subrange(start as int, e as int));
    assert(start == a ==> w =~= s@.subrange(start as int, e as int));
    if start == e {
        return None;
    }
    match read_digits(s, start, e, 0x8000_0000_0000_0000) {
        None => None,
        Some(m) => {
            if neg {
                let v: i128 = -(m as i128);
                Some(v as i64)
            } else if m > 0x7fff_ffff_ffff_ffff {
                None
            } else {
                Some(m as i64)
            }
        },
    }
}

/// `s[a..e]` read as a variable.
fn parse_var_at(s: &Vec<char>, a: usize, e: usize) -> (r: Option<u64>)
    requires
        a <= e <= s@.len(),
    ensures
        r == parse_var(s@.subrange(a as int, e as int)),
{
    let ghost w = s@.subrange(a as int, e as int);
    if e - a < 2 {
        return None;
    }
    assert(w[0] == s@[a as int]);
    if s[a] != ':' && s[a] != 'x' {
        return None;
    }
    assert(w.subrange(1, w.len() as int) =~= s@.subrange(a + 1, e as int));
    read_digits(s, a + 1, e, u64::MAX)
}

/// The token of the word `s[a..e]`.
fn word_token_at(s: &Vec<char>, a: usize, e: usize) -> (r: Option<Token>)
    requires
        a <= e <= s@.len(),
    ensures
        r == word_token(s@.subrange(a as int, e as int)),
{
    if let Some(v) = parse_i64_at(s, a, e) {
        return Some(Token::Int(v));
    }
    if let Some(v) = parse_var_at(s, a, e) {
        return Some(Token::Var(v));
    }
    keyword_of(s, a, e)
}

/// The tokens of `input`, or the first word that is no token.
pub fn lex(input: &str) -> (r: Result<Vec<Token>, LexError>)
    ensures
        match r {
            Ok(ts) => lex_spec(input@) == Ok::<Seq<Token>, (nat, Seq<char>)>(ts@),
            Err(LexError::UnknownToken(line, word)) => lex_spec(input@) == Err::<
                Seq<Token>,
                (nat, Seq<char>),
            >((line as nat, word@)),
        },
{
    let s = chars_of(input);
    let n = s.len();
    let mut toks: Vec<Token> = Vec::new();
    let mut k: usize = 0;
    let mut line: usize = 0;
    assert(prepend(toks@, lex_from(s@, 0, 0)) == lex_from(s@, 0, 0)) by {
        match lex_from(s@, 0, 0) {
            Ok(rest) => assert(toks@ + rest =~= rest),
            Err(_) => {},
        }
    }
    while k < n
        invariant
            n == s@.len(),
            s@ == input@,
            k <= n,
            line <= k,
            lex_spec(s@) == prepend(toks@, lex_from(s@, k as int, line as nat)),
        decreases n - k,
    {
        let ch = s[k];
        if ch == '\n' {
            line = line + 1;
            k = k + 1;
        } else if is_ws_char(ch) {
            k = k + 1;
        } else {
            let mut e = k + 1;
            assert(word_end(s@, k as int) == word_end(s@, k + 1));
            while e < n && !is_ws_char(s[e])
                invariant
                    k < e <= n,
                    n == s@.len(),
                    word_end(s@, k as int) == word_end(s@, e as int),
                decreases n - e,
            {
                e = e + 1;
            }
            assert(word_end(s@, e as int) == e);
            let ghost rest = lex_from(s@, e as int, line as nat);
            match word_token_at(&s, k, e) {
                None => {
                    let word = collect_chars(&s, k, e);
                    return Err(LexError::UnknownToken(line, word));
                },
                Some(t) => {
                    proof {
                        match rest {
                            Ok(r) => assert(toks@ + (seq![t] + r) =~= toks@.push(t) + r),
                            Err(_) => {},
                        }
                    }
                    toks.push(t);
                    k = e;
                },
            }
        }
    }
    assert(prepend(toks@, lex_from(s@, k as int, line as nat)) == Ok::<Seq<Token>, (nat, Seq<char>)>(toks@)) by {
        assert(toks@ + Seq::<Token>::empty() =~= toks@);
    }
    Ok(toks)
}

} // verus!
