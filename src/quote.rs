//! String literals: triple-quoted (verbatim) and mono-quoted (with escapes).

use vstd::prelude::*;
use crate::error::{fatal, fatal_at, mismatch, mismatch_at, Outcome, ParseError};
use crate::number::{hex_digit, hex_digit_of, hex_value, lemma_hex_value_push};
use crate::text::{char_at, string_of};

verus! {

/// The decoded contents of a string literal, owned.
#[derive(Debug, Clone)]
pub struct Quote(String);

impl View for Quote {
    type V = Seq<char>;

    closed spec fn view(&self) -> Seq<char> {
        self.0@
    }
}

impl Quote {
    /// A quote holding `text`.
    pub fn new(text: &str) -> (r: Quote)
        ensures
            r@ == text@,
    {
        Quote(text.to_string())
    }

    /// The decoded text.
    pub fn text(&self) -> (r: &str)
        ensures
            r@ == self@,
    {
        self.0.as_str()
    }
}

impl PartialEq for Quote {
    /// Quotes are equal when their decoded texts are.
    fn eq(&self, other: &Quote) -> (r: bool)
        ensures
            r == (self@ == other@),
    {
        self.0 == other.0
    }
}

impl vstd::std_specs::cmp::PartialEqSpecImpl for Quote {
    open spec fn obeys_eq_spec() -> bool {
        true
    }

    open spec fn eq_spec(&self, other: &Quote) -> bool {
        self@ == other@
    }
}

/// `"""` at `p`.
pub open spec fn triple_at(s: Seq<char>, p: int) -> bool {
    char_at(s, p, '"') && char_at(s, p + 1, '"') && char_at(s, p + 2, '"')
}

/// The first position at or after `i` where `"""` starts.
pub open spec fn triple_close(s: Seq<char>, i: int) -> Option<int>
    decreases s.len() - i,
{
    if i < 0 || i + 3 > s.len() {
        None
    } else if triple_at(s, i) {
        Some(i)
    } else {
        triple_close(s, i + 1)
    }
}

/// `"""text"""`, the text taken verbatim.
pub open spec fn tri_quote_spec(s: Seq<char>, p: int) -> Option<(int, Seq<char>)> {
    if triple_at(s, p) {
        match triple_close(s, p + 3) {
            Some(i) => Some((i + 3, s.subrange(p + 3, i))),
            None => None,
        }
    } else {
        None
    }
}

/// The character that a one-letter escape stands for.
pub open spec fn simple_escape(e: char) -> Option<char> {
    if e == 'a' {
        Some('\x07')
    } else if e == 'b' {
        Some('\x08')
    } else if e == 'e' {
        Some('\x1b')
    } else if e == 'f' {
        Some('\x0c')
    } else if e == 'n' {
        Some('\n')
    } else if e == 'r' {
        Some('\r')
    } else if e == 't' {
        Some('\t')
    } else if e == 'v' {
        Some('\x0b')
    } else if e == '\\' {
        Some('\\')
    } else if e == '\'' {
        Some('\'')
    } else if e == '"' {
        Some('"')
    } else if e == '0' {
        Some('\0')
    } else {
        None
    }
}

/// The number of hexadecimal digits that follow `\x`, `\u` and `\U`.
pub open spec fn escape_width(e: char) -> int {
    if e == 'x' {
        2
    } else if e == 'u' {
        4
    } else if e == 'U' {
        8
    } else {
        0
    }
}

/// `s[i..i + n]` are all hexadecimal digits.
pub open spec fn hex_run(s: Seq<char>, i: int, n: int) -> bool {
    0 <= i && i + n <= s.len() && forall|k: int| i <= k < i + n ==> (#[trigger] hex_digit(s[k])) is Some
}

/// A Unicode scalar value.
pub open spec fn is_scalar(v: nat) -> bool {
    v <= 0xD7FF || (0xE000 <= v && v <= 0x10FFFF)
}

/// The character whose code is `v`.
pub open spec fn char_of(v: nat) -> char {
    choose|c: char| #[trigger] code(c) == v
}

/// The code of a character.
pub open spec fn code(c: char) -> nat {
    c as nat
}

/// Decodes the body of a mono-quoted string from position `i`, `acc`
/// holding what was decoded before it. The answer is the position after the
/// closing quote and the decoded text.
pub open spec fn decode(s: Seq<char>, i: int, acc: Seq<char>) -> Outcome<Seq<char>>
    decreases s.len() - i,
{
    if i < 0 || i >= s.len() {
        Err(fatal_at(s.len() as int))
    } else if s[i] == '"' {
        Ok((i + 1, acc))
    } else if s[i] == '\n' {
        Err(fatal_at(i))
    } else if s[i] == '\\' {
        if i + 1 >= s.len() {
            Err(fatal_at(s.len() as int))
        } else {
            let e = s[i + 1];
            match simple_escape(e) {
                Some(c) => decode(s, i + 2, acc.push(c)),
                None => if escape_width(e) > 0 {
                    let n = escape_width(e);
                    if hex_run(s, i + 2, n) && is_scalar(hex_value(s.subrange(i + 2, i + 2 + n))) {
                        decode(s, i + 2 + n, acc.push(char_of(hex_value(s.subrange(i + 2, i + 2 + n)))))
                    } else {
                        Err(fatal_at(i))
                    }
                } else {
                    decode(s, i + 2, acc.push(e))
                },
            }
        }
    } else {
        decode(s, i + 1, acc.push(s[i]))
    }
}

/// `"text"` with escapes decoded.
pub open spec fn mono_quote_spec(s: Seq<char>, p: int) -> Outcome<Seq<char>> {
    if char_at(s, p, '"') {
        decode(s, p + 1, seq![])
    } else {
        Err(mismatch_at(p))
    }
}

/// A string literal: triple-quoted first, then mono-quoted.
pub open spec fn quote_spec(s: Seq<char>, p: int) -> Outcome<Seq<char>> {
    match tri_quote_spec(s, p) {
        Some((q, t)) => Ok((q, t)),
        None => mono_quote_spec(s, p),
    }
}

/// Relies on `char::from_u32`: `Some` exactly for the Unicode scalar values,
/// holding the character with that code.
#[verifier::external_body]
fn char_from_code(v: u32) -> (r: Option<char>)
    ensures
        r is Some <==> is_scalar(v as nat),
        r matches Some(c) ==> c == char_of(v as nat),
{
    char::from_u32(v)
}

proof fn lemma_hex_value_bound(d: Seq<char>)
    requires
        forall|k: int| 0 <= k < d.len() ==> (#[trigger] hex_digit(d[k])) is Some,
    ensures
        hex_value(d) < vstd::arithmetic::power::pow(16, d.len() as nat),
    decreases d.len(),
{
    vstd::arithmetic::power::lemma_pow0(16);
    if d.len() > 0 {
        let e = d.drop_last();
        assert forall|k: int| 0 <= k < e.len() implies (#[trigger] hex_digit(e[k])) is Some by {
            assert(e[k] == d[k]);
        }
        lemma_hex_value_bound(e);
        assert(hex_digit(d[d.len() - 1]) is Some);
        vstd::arithmetic::power::lemma_pow_adds(16, e.len() as nat, 1);
        vstd::arithmetic::power::lemma_pow1(16);
        let h = hex_value(e);
        let m = hex_digit(d.last())->0;
        assert(m < 16);
        let pw = vstd::arithmetic::power::pow(16, e.len() as nat);
        assert(h * 16 + m < pw * 16) by (nonlinear_arith)
            requires
                h < pw,
                m < 16,
        ;
    }
}

/// Reads `n` hexadecimal digits at `i`, for `n` at most 8.
fn hex_code(s: &Vec<char>, i: usize, n: usize) -> (r: Option<u32>)
    requires
        i <= s.len(),
        n <= 8,
    ensures
        r is Some <==> hex_run(s@, i as int, n as int),
        r matches Some(v) ==> v as nat == hex_value(s@.subrange(i as int, i + n)),
{
    if s.len() - i < n {
        return None;
    }
    let mut k: usize = 0;
    let mut v: u32 = 0;
    while k < n
        invariant
            k <= n <= 8,
            i + n <= s.len(),
            forall|j: int| i <= j < i + k ==> (#[trigger] hex_digit(s@[j])) is Some,
            v as nat == hex_value(s@.subrange(i as int, i + k)),
        decreases n - k,
    {
        match hex_digit_of(s[i + k]) {
            Some(d) => {
                proof {
                    let sub = s@.subrange(i as int, i + k);
                    assert(s@.subrange(i as int, i + k + 1) =~= sub.push(s@[i + k]));
                    lemma_hex_value_push(sub, s@[i + k]);
                    assert forall|j: int| 0 <= j < sub.len() implies (#[trigger] hex_digit(sub[j])) is Some by {
                        assert(sub[j] == s@[i + j]);
                    }
                    lemma_hex_value_bound(sub);
                    assert(k < 8);
                    vstd::arithmetic::power::lemma_pow_increases(16, k as nat, 7);
                    reveal_with_fuel(vstd::arithmetic::power::pow, 8);
                    assert(vstd::arithmetic::power::pow(16, 7) == 0x10000000);
                }
                v = v * 16 + d as u32;
                k = k + 1;
            },
            None => {
                return None;
            },
        }
    }
    Some(v)
}

fn simple_escape_char(e: char) -> (r: Option<char>)
    ensures
        r == simple_escape(e),
{
    if e == 'a' {
        Some('\x07')
    } else if e == 'b' {
        Some('\x08')
    } else if e == 'e' {
        Some('\x1b')
    } else if e == 'f' {
        Some('\x0c')
    } else if e == 'n' {
        Some('\n')
    } else if e == 'r' {
        Some('\r')
    } else if e == 't' {
        Some('\t')
    } else if e == 'v' {
        Some('\x0b')
    } else if e == '\\' {
        Some('\\')
    } else if e == '\'' {
        Some('\'')
    } else if e == '"' {
        Some('"')
    } else if e == '0' {
        Some('\0')
    } else {
        None
    }
}

/// Decodes the body of a mono-quoted string that starts at `i`, just after
/// the opening quote.
fn unescape(s: &Vec<char>, i: usize) -> (r: Result<(usize, Vec<char>), ParseError>)
    requires
        i <= s.len(),
    ensures
        match r {
            Ok((q, t)) => decode(s@, i as int, seq![]) == Ok::<(int, Seq<char>), ParseError>((q as int, t@)) && i < q <= s.len(),
            Err(e) => decode(s@, i as int, seq![]) == Err::<(int, Seq<char>), ParseError>(e),
        },
{
    let mut out: Vec<char> = Vec::new();
    let mut j = i;
    while j < s.len()
        invariant
            i <= j <= s.len(),
            decode(s@, j as int, out@) == decode(s@, i as int, seq![]),
        decreases s.len() - j,
    {
        let c = s[j];
        if c == '"' {
            return Ok((j + 1, out));
        } else if c == '\n' {
            return Err(fatal(j));
        } else if c == '\\' {
            if j + 1 >= s.len() {
                return Err(fatal(s.len()));
            }
            let e = s[j + 1];
            match simple_escape_char(e) {
                Some(d) => {
                    out.push(d);
                    j = j + 2;
                },
                None => {
                    let n: usize = if e == 'x' {
                        2
                    } else if e == 'u' {
                        4
                    } else if e == 'U' {
                        8
                    } else {
                        0
                    };
                    if n > 0 {
                        match hex_code(s, j + 2, n) {
                            Some(v) => match char_from_code(v) {
                                Some(d) => {
                                    out.push(d);
                                    j = j + 2 + n;
                                },
                                None => {
                                    return Err(fatal(j));
                                },
                            },
                            None => {
                                return Err(fatal(j));
                            },
                        }
                    } else {
                        out.push(e);
                        j = j + 2;
                    }
                },
            }
        } else {
            out.push(c);
            j = j + 1;
        }
    }
    Err(fatal(s.len()))
}

/// Recognizes `"""text"""`.
pub fn tri_quote(s: &Vec<char>, p: usize) -> (r: Option<(usize, String)>)
    requires
        p <= s.len(),
    ensures
        match r {
            Some((q, t)) => tri_quote_spec(s@, p as int) == Some((q as int, t@)) && p < q <= s.len(),
            None => tri_quote_spec(s@, p as int) is None,
        },
{
    if !(s.len() - p >= 3 && s[p] == '"' && s[p + 1] == '"' && s[p + 2] == '"') {
        return None;
    }
    assert(triple_at(s@, p as int));
    let mut j = p + 3;
    while j <= s.len() && s.len() - j >= 3
        invariant
            p + 3 <= j,
            j <= s.len() + 3,
            triple_at(s@, p as int),
            triple_close(s@, j as int) == triple_close(s@, p + 3),
        decreases s.len() + 3 - j,
    {
        if s[j] == '"' && s[j + 1] == '"' && s[j + 2] == '"' {
            assert(triple_close(s@, j as int) == Some(j as int));
            return Some((j + 3, string_of(s, p + 3, j)));
        }
        j = j + 1;
    }
    None
}

/// Recognizes `"text"` and decodes its escapes.
pub fn mono_quote(s: &Vec<char>, p: usize) -> (r: Result<(usize, String), ParseError>)
    requires
        p <= s.len(),
    ensures
        match r {
            Ok((q, t)) => mono_quote_spec(s@, p as int) == Ok::<(int, Seq<char>), ParseError>((q as int, t@)) && p < q <= s.len(),
            Err(e) => mono_quote_spec(s@, p as int) == Err::<(int, Seq<char>), ParseError>(e),
        },
{
    if !(p < s.len() && s[p] == '"') {
        return Err(mismatch(p));
    }
    match unescape(s, p + 1) {
        Ok((q, t)) => {
            let text = string_of(&t, 0, t.len());
            proof {
                assert(t@.subrange(0, t@.len() as int) =~= t@);
            }
            Ok((q, text))
        },
        Err(e) => Err(e),
    }
}

/// Recognizes a string literal: triple-quoted first, then mono-quoted.
pub fn quote(s: &Vec<char>, p: usize) -> (r: Result<(usize, Quote), ParseError>)
    requires
        p <= s.len(),
    ensures
        match r {
            Ok((q, t)) => quote_spec(s@, p as int) == Ok::<(int, Seq<char>), ParseError>((q as int, t@)) && p < q <= s.len(),
            Err(e) => quote_spec(s@, p as int) == Err::<(int, Seq<char>), ParseError>(e),
        },
{
    match tri_quote(s, p) {
        Some((q, t)) => Ok((q, Quote(t))),
        None => match mono_quote(s, p) {
            Ok((q, t)) => Ok((q, Quote(t))),
            Err(e) => Err(e),
        },
    }
}

proof fn lemma_decode_plain(s: Seq<char>, k: int, i: int, acc: Seq<char>)
    requires
        0 <= k <= i < s.len(),
        s[i] == '\n',
        forall|j: int| k <= j < i ==> (#[trigger] s[j]) != '"' && s[j] != '\\' && s[j] != '\n',
    ensures
        decode(s, k, acc) == Err::<(int, Seq<char>), ParseError>(fatal_at(i)),
    decreases i - k,
{
    if k < i {
        lemma_decode_plain(s, k + 1, i, acc.push(s[k]));
    }
}

/// A raw newline inside a mono-quoted string is a fatal failure at the
/// newline.
pub proof fn lemma_mono_quote_newline(s: Seq<char>, p: int, i: int)
    requires
        char_at(s, p, '"'),
        p < i < s.len(),
        s[i] == '\n',
        forall|j: int| p < j < i ==> (#[trigger] s[j]) != '"' && s[j] != '\\' && s[j] != '\n',
    ensures
        quote_spec(s, p) == Err::<(int, Seq<char>), ParseError>(fatal_at(i)),
{
    lemma_decode_plain(s, p + 1, i, seq![]);
}

/// A triple-quoted string keeps its text verbatim, newlines included.
pub proof fn lemma_tri_quote_verbatim(s: Seq<char>, p: int)
    requires
        0 <= p,
    ensures
        tri_quote_spec(s, p) matches Some((q, text)) ==> {
            &&& quote_spec(s, p) == Ok::<(int, Seq<char>), ParseError>((q, text))
            &&& text == s.subrange(p + 3, q - 3)
        },
{
}

pub proof fn lemma_triple_close_bounds(s: Seq<char>, i: int)
    requires
        0 <= i,
    ensures
        triple_close(s, i) matches Some(j) ==> i <= j && j + 3 <= s.len(),
    decreases s.len() - i,
{
    if i + 3 <= s.len() && !triple_at(s, i) {
        lemma_triple_close_bounds(s, i + 1);
    }
}

} // verus!
