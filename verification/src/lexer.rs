//! Lexer for the topology DSL (`TP8_NVL12+PP4_IB2|TP8_NVL6`).
//!
//! The input is scanned character by character. A keyword is a run of
//! alphabetic characters; a number is a run of ASCII digits.

use vstd::prelude::*;
use crate::text::{chars_of, digit_run, digits_value, digits_value_sat, digits_value_saturating, is_digit, push_range, push_str, scan_digits, string_from_chars};

verus! {

/// Terminal symbols of the topology DSL.
#[derive(Debug, Clone, Copy, PartialEq, Eq)]
pub enum Token {
    /// Tensor-parallel dim keyword.
    Tp,
    /// Pipeline-parallel dim keyword.
    Pp,
    /// Data-parallel dim keyword.
    Dp,
    /// Degree integer following a dim keyword.
    Number(u32),
    /// `_NVL<n>`: minimum NVLink bandwidth in GB/s (saturated at `u64::MAX`).
    NvlMin(u64),
    /// `_IB<n>`: maximum InfiniBand hops allowed.
    IbMax(u32),
    /// `_NUMA`: NUMA-locality constraint.
    Numa,
    /// `+` conjunction operator.
    Plus,
    /// `|` disjunction operator.
    Pipe,
}

/// Whether `c` has the Unicode `Alphabetic` property (`char::is_alphabetic`),
/// for a character outside ASCII.
pub uninterp spec fn spec_is_alphabetic(c: char) -> bool;

/// Whether `c` has the Unicode `Alphabetic` property: among ASCII characters
/// exactly the letters have it.
pub open spec fn alphabetic(c: char) -> bool {
    if (c as u32) < 0x80 {
        ('a' <= c && c <= 'z') || ('A' <= c && c <= 'Z')
    } else {
        spec_is_alphabetic(c)
    }
}

/// Calls `char::is_alphabetic`: for an ASCII character it holds exactly of
/// the letters; for any other character its result is named by
/// `spec_is_alphabetic`.
#[verifier::external_body]
fn is_alphabetic(c: char) -> (b: bool)
    ensures
        (c as u32) < 0x80 ==> (b <==> (('a' <= c && c <= 'z') || ('A' <= c && c <= 'Z'))),
        (c as u32) >= 0x80 ==> b == spec_is_alphabetic(c),
{
    c.is_alphabetic()
}

/// Length of the longest prefix of `s` made of alphabetic characters.
pub open spec fn alpha_run(s: Seq<char>) -> nat
    decreases s.len(),
{
    if s.len() > 0 && alphabetic(s[0]) {
        1 + alpha_run(s.drop_first())
    } else {
        0
    }
}

pub proof fn lemma_alpha_run_bound(s: Seq<char>)
    ensures
        alpha_run(s) <= s.len(),
    decreases s.len(),
{
    if s.len() > 0 && alphabetic(s[0]) {
        lemma_alpha_run_bound(s.drop_first());
    }
}

pub proof fn lemma_digit_run_bound(s: Seq<char>)
    ensures
        digit_run(s) <= s.len(),
        forall|i: int| 0 <= i < digit_run(s) ==> is_digit(#[trigger] s[i]),
    decreases s.len(),
{
    if s.len() > 0 && is_digit(s[0]) {
        lemma_digit_run_bound(s.drop_first());
        assert forall|i: int| 0 <= i < digit_run(s) implies is_digit(#[trigger] s[i]) by {
            if i > 0 {
                assert(s[i] == s.drop_first()[i - 1]);
            }
        }
    }
}

/// `t` followed by the tokens of `r`; an error stays an error.
pub open spec fn prepend(t: Seq<Token>, r: Result<Seq<Token>, Seq<char>>) -> Result<Seq<Token>, Seq<char>> {
    match r {
        Ok(rest) => Ok(t + rest),
        Err(e) => Err(e),
    }
}

/// The dim keyword token spelled by `kw`, if any.
pub open spec fn dim_keyword(kw: Seq<char>) -> Option<Token> {
    if kw == seq!['T', 'P'] {
        Some(Token::Tp)
    } else if kw == seq!['P', 'P'] {
        Some(Token::Pp)
    } else if kw == seq!['D', 'P'] {
        Some(Token::Dp)
    } else {
        None
    }
}

/// The tokens produced by the first lexeme of a non-empty `s` and the number of
/// characters it consumes, or the message of the lexical error found there.
///
/// - `+` and `|` are operators.
/// - `_` starts a constraint: `_NVL<digits>`, `_IB<digits>` (at most `u32::MAX`)
///   or `_NUMA`.
/// - An alphabetic run starts a dim: `TP`, `PP` or `DP` followed by a degree
///   (digits, at most `u32::MAX`).
/// - Any other character is an error.
pub open spec fn lex_step(s: Seq<char>) -> Result<(Seq<Token>, nat), Seq<char>> {
    if s[0] == '+' {
        Ok((seq![Token::Plus], 1))
    } else if s[0] == '|' {
        Ok((seq![Token::Pipe], 1))
    } else if s[0] == '_' {
        let rest = s.drop_first();
        let k = alpha_run(rest);
        let kw = rest.take(k as int);
        let after = rest.skip(k as int);
        let d = digit_run(after);
        let digits = after.take(d as int);
        if kw == seq!['N', 'V', 'L'] {
            if d == 0 {
                Err("_NVL must be followed by a number"@)
            } else {
                Ok((seq![Token::NvlMin(digits_value_sat(digits))], 1 + k + d))
            }
        } else if kw == seq!['I', 'B'] {
            if d == 0 {
                Err("_IB must be followed by a number"@)
            } else if digits_value(digits) > u32::MAX {
                Err("bad IB number"@)
            } else {
                Ok((seq![Token::IbMax(digits_value(digits) as u32)], 1 + k + d))
            }
        } else if kw == seq!['N', 'U', 'M', 'A'] {
            Ok((seq![Token::Numa], 1 + k))
        } else {
            Err("unknown constraint _"@ + kw)
        }
    } else if alphabetic(s[0]) {
        let k = alpha_run(s);
        let kw = s.take(k as int);
        let after = s.skip(k as int);
        let d = digit_run(after);
        let digits = after.take(d as int);
        if d == 0 || digits_value(digits) > u32::MAX {
            Err("expected number after "@ + kw)
        } else {
            match dim_keyword(kw) {
                Some(t) => Ok((seq![t, Token::Number(digits_value(digits) as u32)], k + d)),
                None => Err("unknown parallel dim "@ + kw),
            }
        }
    } else {
        Err("unexpected character '"@ + seq![s[0]] + "'"@)
    }
}

pub proof fn lemma_lex_step_progress(s: Seq<char>)
    requires
        s.len() > 0,
    ensures
        lex_step(s) matches Ok((_, n)) ==> 1 <= n <= s.len(),
{
    lemma_alpha_run_bound(s);
    lemma_alpha_run_bound(s.drop_first());
    lemma_digit_run_bound(s.skip(alpha_run(s) as int));
    lemma_digit_run_bound(s.drop_first().skip(alpha_run(s.drop_first()) as int));
    if alphabetic(s[0]) && s[0] != '+' && s[0] != '|' && s[0] != '_' {
        assert(alpha_run(s) >= 1);
    }
}

/// The token stream of `s`, or the message of the first lexical error.
pub open spec fn lex_spec(s: Seq<char>) -> Result<Seq<Token>, Seq<char>>
    decreases s.len(),
{
    if s.len() == 0 {
        Ok(Seq::empty())
    } else {
        match lex_step(s) {
            Ok((t, n)) => {
                proof {
                    lemma_lex_step_progress(s);
                }
                if 1 <= n <= s.len() {
                    prepend(t, lex_spec(s.skip(n as int)))
                } else {
                    Ok(t)
                }
            },
            Err(e) => Err(e),
        }
    }
}

/// Consume a run of alphabetic characters starting at `*pos`.
fn collect_alpha(chars: &Vec<char>, pos: &mut usize) -> (kw: Vec<char>)
    requires
        *old(pos) <= chars@.len(),
    ensures
        *final(pos) == *old(pos) + alpha_run(chars@.skip(*old(pos) as int)),
        *final(pos) <= chars@.len(),
        kw@ == chars@.subrange(*old(pos) as int, *final(pos) as int),
{
    let start = *pos;
    let mut kw: Vec<char> = Vec::new();
    proof {
        lemma_alpha_run_bound(chars@.skip(start as int));
    }
    while *pos < chars.len() && is_alphabetic(chars[*pos])
        invariant
            start <= *pos <= chars@.len(),
            kw@ == chars@.subrange(start as int, *pos as int),
            alpha_run(chars@.skip(start as int)) == (*pos - start) + alpha_run(chars@.skip(*pos as int)),
        decreases chars@.len() - *pos,
    {
        let c = chars[*pos];
        kw.push(c);
        assert(chars@.skip(*pos as int).drop_first() == chars@.skip(*pos + 1));
        *pos = *pos + 1;
        assert(kw@ == chars@.subrange(start as int, *pos as int));
    }
    kw
}

/// Consume a run of ASCII digits starting at `*pos`.
fn collect_digits(chars: &Vec<char>, pos: &mut usize) -> (digits: Vec<char>)
    requires
        *old(pos) <= chars@.len(),
    ensures
        *final(pos) == *old(pos) + digit_run(chars@.skip(*old(pos) as int)),
        *final(pos) <= chars@.len(),
        digits@ == chars@.subrange(*old(pos) as int, *final(pos) as int),
        forall|i: int| *old(pos) <= i < *final(pos) ==> is_digit(#[trigger] chars@[i]),
{
    let start = *pos;
    let end = scan_digits(chars, start);
    let mut digits: Vec<char> = Vec::new();
    push_range(&mut digits, chars, start, end);
    proof {
        lemma_digit_run_bound(chars@.skip(start as int));
        assert forall|i: int| start <= i < end implies is_digit(#[trigger] chars@[i]) by {
            assert(chars@[i] == chars@.skip(start as int)[i - start]);
        }
    }
    *pos = end;
    assert(digits@ =~= chars@.subrange(start as int, end as int));
    digits
}

/// `prefix` followed by `chars[from..to]`, as a `String`.
fn message(prefix: &str, chars: &Vec<char>, from: usize, to: usize) -> (m: String)
    requires
        from <= to <= chars@.len(),
    ensures
        m@ == prefix@ + chars@.subrange(from as int, to as int),
{
    let mut v: Vec<char> = Vec::new();
    push_str(&mut v, prefix);
    push_range(&mut v, chars, from, to);
    assert(v@ =~= prefix@ + chars@.subrange(from as int, to as int));
    string_from_chars(&v)
}

/// The message for an unexpected character `c`.
fn unexpected_char_message(c: char) -> (m: String)
    ensures
        m@ == "unexpected character '"@ + seq![c] + "'"@,
{
    let mut v: Vec<char> = Vec::new();
    push_str(&mut v, "unexpected character '");
    v.push(c);
    push_str(&mut v, "'");
    assert(v@ =~= "unexpected character '"@ + seq![c] + "'"@);
    string_from_chars(&v)
}

/// The result of `lex_step` on `chars[pos..]`, with consumed counts turned into
/// the new position.
pub open spec fn step_matches(chars: Seq<char>, pos: int, r: Result<(Vec<Token>, usize), String>) -> bool {
    match r {
        Ok((t, p)) => lex_step(chars.skip(pos)) == Ok::<(Seq<Token>, nat), Seq<char>>((t@, (p - pos) as nat)) && pos < p,
        Err(e) => lex_step(chars.skip(pos)) == Err::<(Seq<Token>, nat), Seq<char>>(e@),
    }
}

/// Lex a constraint starting with the `_` at `pos`.
fn lex_constraint(chars: &Vec<char>, pos: usize) -> (r: Result<(Vec<Token>, usize), String>)
    requires
        pos < chars@.len(),
        chars@[pos as int] == '_',
    ensures
        step_matches(chars@, pos as int, r),
{
    let ghost s = chars@.skip(pos as int);
    let n = chars.len();
    assert(pos < n);
    assert(s[0] == '_');
    let mut p = pos + 1;
    let ghost rest = s.drop_first();
    assert(rest =~= chars@.skip(p as int));
    let kw = collect_alpha(chars, &mut p);
    let p1 = p;
    let ghost k = alpha_run(rest);
    assert(rest.take(k as int) =~= kw@);
    let ghost after = rest.skip(k as int);
    assert(after =~= chars@.skip(p1 as int));
    let digits = collect_digits(chars, &mut p);
    let p2 = p;
    let ghost d = digit_run(after);
    assert(after.take(d as int) =~= digits@);
    if kw.len() == 3 && kw[0] == 'N' && kw[1] == 'V' && kw[2] == 'L' {
        assert(kw@ =~= seq!['N', 'V', 'L']);
        if digits.len() == 0 {
            return Err(String::from_str("_NVL must be followed by a number"));
        }
        let bw = digits_value_saturating(chars, p1, p2);
        let mut t: Vec<Token> = Vec::new();
        t.push(Token::NvlMin(bw));
        assert(t@ =~= seq![Token::NvlMin(bw)]);
        Ok((t, p2))
    } else if kw.len() == 2 && kw[0] == 'I' && kw[1] == 'B' {
        assert(kw@ =~= seq!['I', 'B']);
        assert(kw@ != seq!['N', 'V', 'L']);
        if digits.len() == 0 {
            return Err(String::from_str("_IB must be followed by a number"));
        }
        let v = digits_value_saturating(chars, p1, p2);
        if v > 4294967295u64 {
            return Err(String::from_str("bad IB number"));
        }
        let mut t: Vec<Token> = Vec::new();
        t.push(Token::IbMax(v as u32));
        assert(t@ =~= seq![Token::IbMax(v as u32)]);
        Ok((t, p2))
    } else if kw.len() == 4 && kw[0] == 'N' && kw[1] == 'U' && kw[2] == 'M' && kw[3] == 'A' {
        assert(kw@ =~= seq!['N', 'U', 'M', 'A']);
        assert(kw@.len() != 3 && kw@.len() != 2);
        let mut t: Vec<Token> = Vec::new();
        t.push(Token::Numa);
        assert(t@ =~= seq![Token::Numa]);
        Ok((t, p1))
    } else {
        assert(kw@ != seq!['N', 'V', 'L']);
        assert(kw@ != seq!['I', 'B']);
        assert(kw@ != seq!['N', 'U', 'M', 'A']);
        let e = message("unknown constraint _", chars, pos + 1, p1);
        assert(e@ =~= "unknown constraint _"@ + kw@);
        Err(e)
    }
}

/// Lex a dim keyword with its degree, starting at the alphabetic character at `pos`.
fn lex_dim(chars: &Vec<char>, pos: usize) -> (r: Result<(Vec<Token>, usize), String>)
    requires
        pos < chars@.len(),
        alphabetic(chars@[pos as int]),
        chars@[pos as int] != '+',
        chars@[pos as int] != '|',
        chars@[pos as int] != '_',
    ensures
        step_matches(chars@, pos as int, r),
{
    let ghost s = chars@.skip(pos as int);
    assert(s[0] == chars@[pos as int]);
    let mut p = pos;
    let kw = collect_alpha(chars, &mut p);
    let p1 = p;
    let ghost k = alpha_run(s);
    assert(s.take(k as int) =~= kw@);
    let ghost after = s.skip(k as int);
    assert(after =~= chars@.skip(p1 as int));
    let digits = collect_digits(chars, &mut p);
    let p2 = p;
    let ghost d = digit_run(after);
    assert(after.take(d as int) =~= digits@);
    proof {
        lemma_alpha_run_bound(s);
    }
    assert(k >= 1);
    if digits.len() == 0 {
        let e = message("expected number after ", chars, pos, p1);
        assert(e@ =~= "expected number after "@ + kw@);
        return Err(e);
    }
    let v = digits_value_saturating(chars, p1, p2);
    if v > 4294967295u64 {
        let e = message("expected number after ", chars, pos, p1);
        assert(e@ =~= "expected number after "@ + kw@);
        return Err(e);
    }
    let num = v as u32;
    let mut t: Vec<Token> = Vec::new();
    if kw.len() == 2 && kw[0] == 'T' && kw[1] == 'P' {
        assert(kw@ =~= seq!['T', 'P']);
        t.push(Token::Tp);
    } else if kw.len() == 2 && kw[0] == 'P' && kw[1] == 'P' {
        assert(kw@ =~= seq!['P', 'P']);
        assert(kw@ != seq!['T', 'P']);
        t.push(Token::Pp);
    } else if kw.len() == 2 && kw[0] == 'D' && kw[1] == 'P' {
        assert(kw@ =~= seq!['D', 'P']);
        assert(kw@ != seq!['T', 'P']);
        assert(kw@ != seq!['P', 'P']);
        t.push(Token::Dp);
    } else {
        assert(kw@ != seq!['T', 'P']);
        assert(kw@ != seq!['P', 'P']);
        assert(kw@ != seq!['D', 'P']);
        let e = message("unknown parallel dim ", chars, pos, p1);
        assert(e@ =~= "unknown parallel dim "@ + kw@);
        return Err(e);
    }
    t.push(Token::Number(num));
    assert(t@ =~= seq![dim_keyword(kw@)->0, Token::Number(num)]);
    Ok((t, p2))
}

/// Lex the lexeme starting at `pos`.
fn lex_one(chars: &Vec<char>, pos: usize) -> (r: Result<(Vec<Token>, usize), String>)
    requires
        pos < chars@.len(),
    ensures
        step_matches(chars@, pos as int, r),
{
    let ghost s = chars@.skip(pos as int);
    assert(s[0] == chars@[pos as int]);
    let n = chars.len();
    assert(pos < n);
    let c = chars[pos];
    if c == '+' {
        let mut t: Vec<Token> = Vec::new();
        t.push(Token::Plus);
        assert(t@ =~= seq![Token::Plus]);
        Ok((t, pos + 1))
    } else if c == '|' {
        let mut t: Vec<Token> = Vec::new();
        t.push(Token::Pipe);
        assert(t@ =~= seq![Token::Pipe]);
        Ok((t, pos + 1))
    } else if c == '_' {
        lex_constraint(chars, pos)
    } else if is_alphabetic(c) {
        lex_dim(chars, pos)
    } else {
        Err(unexpected_char_message(c))
    }
}

proof fn lemma_prepend_assoc(a: Seq<Token>, b: Seq<Token>, r: Result<Seq<Token>, Seq<char>>)
    ensures
        prepend(a, prepend(b, r)) == prepend(a + b, r),
{
    match r {
        Ok(t) => {
            assert(a + (b + t) =~= (a + b) + t);
        },
        Err(_) => {},
    }
}

/// Tokenise a topology DSL string.
///
/// Returns the first lexical error's message on failure.
pub fn lex(input: &str) -> (r: Result<Vec<Token>, String>)
    ensures
        match r {
            Ok(t) => lex_spec(input@) == Ok::<Seq<Token>, Seq<char>>(t@),
            Err(e) => lex_spec(input@) == Err::<Seq<Token>, Seq<char>>(e@),
        },
{
    let chars = chars_of(input);
    let mut tokens: Vec<Token> = Vec::new();
    let mut pos: usize = 0;
    assert(chars@.skip(0) =~= chars@);
    proof {
        match lex_spec(chars@) {
            Ok(t) => { assert(Seq::<Token>::empty() + t =~= t); },
            Err(_) => {},
        }
    }
    while pos < chars.len()
        invariant
            chars@ == input@,
            pos <= chars@.len(),
            lex_spec(chars@) == prepend(tokens@, lex_spec(chars@.skip(pos as int))),
        decreases chars@.len() - pos,
    {
        let ghost s = chars@.skip(pos as int);
        let ghost old_tokens = tokens@;
        let step = lex_one(&chars, pos);
        match step {
            Ok((t, p)) => {
                proof {
                    lemma_lex_step_progress(s);
                    assert(s.skip(p - pos) =~= chars@.skip(p as int));
                    lemma_prepend_assoc(old_tokens, t@, lex_spec(chars@.skip(p as int)));
                }
                let mut t = t;
                tokens.append(&mut t);
                pos = p;
            },
            Err(e) => {
                return Err(e);
            },
        }
    }
    assert(chars@.skip(pos as int) =~= Seq::<char>::empty());
    assert(tokens@ + Seq::<Token>::empty() =~= tokens@);
    Ok(tokens)
}

} // verus!
