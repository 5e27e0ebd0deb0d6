//! Number literals: hexadecimal integers and decimal literals.

use vstd::prelude::*;
use crate::text::{char_at, string_of};

verus! {

/// The mathematical form of a number literal.
pub enum NumberV {
    Hex(u64),
    Decimal(Seq<char>),
}

/// A decimal literal, kept as the text it was written in (sign, digits,
/// point and exponent). Its floating-point value is left to the consumer.
/// Literals compare by their text, so `1.0` and `1.` are not equal.
#[derive(Debug, Clone)]
pub struct Decimal {
    text: String,
}

impl View for Decimal {
    type V = Seq<char>;

    closed spec fn view(&self) -> Seq<char> {
        self.text@
    }
}

impl Decimal {
    /// A decimal literal written `text`.
    pub fn new(text: &str) -> (r: Decimal)
        ensures
            r@ == text@,
    {
        Decimal { text: text.to_string() }
    }

    /// The literal as written.
    pub fn text(&self) -> (r: &str)
        ensures
            r@ == self@,
    {
        self.text.as_str()
    }
}

impl PartialEq for Decimal {
    /// Decimal literals are equal when they are written alike.
    fn eq(&self, other: &Decimal) -> (r: bool)
        ensures
            r == (self@ == other@),
    {
        self.text == other.text
    }
}

impl vstd::std_specs::cmp::PartialEqSpecImpl for Decimal {
    open spec fn obeys_eq_spec() -> bool {
        true
    }

    open spec fn eq_spec(&self, other: &Decimal) -> bool {
        self@ == other@
    }
}

/// A number literal.
#[derive(Debug, Clone)]
pub enum Number {
    /// Hexadecimal number.
    Hex(u64),
    /// Decimal number.
    Decimal(Decimal),
}

impl View for Number {
    type V = NumberV;

    open spec fn view(&self) -> NumberV {
        match self {
            Number::Hex(v) => NumberV::Hex(*v),
            Number::Decimal(d) => NumberV::Decimal(d@),
        }
    }
}

impl PartialEq for Number {
    /// Numbers are equal when they are of one kind with equal values: the
    /// same integer, or decimal literals written alike.
    fn eq(&self, other: &Number) -> (r: bool)
        ensures
            r == (self@ == other@),
    {
        match (self, other) {
            (Number::Hex(a), Number::Hex(b)) => *a == *b,
            (Number::Decimal(a), Number::Decimal(b)) => a.eq(b),
            _ => false,
        }
    }
}

impl vstd::std_specs::cmp::PartialEqSpecImpl for Number {
    open spec fn obeys_eq_spec() -> bool {
        true
    }

    open spec fn eq_spec(&self, other: &Number) -> bool {
        self@ == other@
    }
}

pub open spec fn is_digit(c: char) -> bool {
    '0' <= c <= '9'
}

/// The value of a hexadecimal digit.
pub open spec fn hex_digit(c: char) -> Option<nat> {
    if '0' <= c <= '9' {
        Some((c as nat - '0' as nat) as nat)
    } else if 'a' <= c <= 'f' {
        Some((c as nat - 'a' as nat + 10) as nat)
    } else if 'A' <= c <= 'F' {
        Some((c as nat - 'A' as nat + 10) as nat)
    } else {
        None
    }
}

/// The value of a run of hexadecimal digits.
pub open spec fn hex_value(d: Seq<char>) -> nat
    decreases d.len(),
{
    if d.len() == 0 {
        0
    } else {
        hex_value(d.drop_last()) * 16 + match hex_digit(d.last()) {
            Some(v) => v,
            None => 0,
        }
    }
}

/// The end of the run of decimal digits that starts at `p`.
pub open spec fn skip_digits(s: Seq<char>, p: int) -> int
    decreases s.len() - p,
{
    if 0 <= p < s.len() && is_digit(s[p]) {
        skip_digits(s, p + 1)
    } else {
        p
    }
}

/// The end of the run of hexadecimal digits that starts at `p`.
pub open spec fn skip_hex_digits(s: Seq<char>, p: int) -> int
    decreases s.len() - p,
{
    if 0 <= p < s.len() && hex_digit(s[p]) is Some {
        skip_hex_digits(s, p + 1)
    } else {
        p
    }
}

/// `0x` or `0X`, one or more hexadecimal digits, and a value that fits in
/// 64 bits.
pub open spec fn hex_number_spec(s: Seq<char>, p: int) -> Option<(int, u64)> {
    if char_at(s, p, '0') && (char_at(s, p + 1, 'x') || char_at(s, p + 1, 'X')) {
        let q = skip_hex_digits(s, p + 2);
        if q > p + 2 && hex_value(s.subrange(p + 2, q)) <= u64::MAX {
            Some((q, hex_value(s.subrange(p + 2, q)) as u64))
        } else {
            None
        }
    } else {
        None
    }
}

pub open spec fn is_sign_at(s: Seq<char>, p: int) -> bool {
    char_at(s, p, '+') || char_at(s, p, '-')
}

/// An exponent `e` or `E`, an optional sign and one or more digits.
pub open spec fn exponent_end(s: Seq<char>, p: int) -> Option<int> {
    if char_at(s, p, 'e') || char_at(s, p, 'E') {
        let q = if is_sign_at(s, p + 1) {
            p + 2
        } else {
            p + 1
        };
        if skip_digits(s, q) > q {
            Some(skip_digits(s, q))
        } else {
            None
        }
    } else {
        None
    }
}

/// A decimal literal: an optional sign, then the first form that matches
/// of `.digits[exp]`, `digits[.digits]exp`, `digits.[digits]` and `digits`.
pub open spec fn decimal_end(s: Seq<char>, p: int) -> Option<int> {
    let p1 = if is_sign_at(s, p) {
        p + 1
    } else {
        p
    };
    if char_at(s, p1, '.') && skip_digits(s, p1 + 1) > p1 + 1 {
        let q = skip_digits(s, p1 + 1);
        match exponent_end(s, q) {
            Some(r) => Some(r),
            None => Some(q),
        }
    } else {
        let q = skip_digits(s, p1);
        if q == p1 {
            None
        } else {
            let f = if char_at(s, q, '.') && skip_digits(s, q + 1) > q + 1 {
                skip_digits(s, q + 1)
            } else {
                q
            };
            match exponent_end(s, f) {
                Some(r) => Some(r),
                None => if char_at(s, q, '.') {
                    Some(skip_digits(s, q + 1))
                } else {
                    Some(q)
                },
            }
        }
    }
}

/// A number literal: hexadecimal first, then decimal.
pub open spec fn number_spec(s: Seq<char>, p: int) -> Option<(int, NumberV)> {
    match hex_number_spec(s, p) {
        Some((q, v)) => Some((q, NumberV::Hex(v))),
        None => match decimal_end(s, p) {
            Some(q) => Some((q, NumberV::Decimal(s.subrange(p, q)))),
            None => None,
        },
    }
}

pub proof fn lemma_skip_digits_bounds(s: Seq<char>, p: int)
    requires
        0 <= p,
    ensures
        p <= skip_digits(s, p),
        p <= s.len() ==> skip_digits(s, p) <= s.len(),
    decreases s.len() - p,
{
    if p < s.len() && is_digit(s[p]) {
        lemma_skip_digits_bounds(s, p + 1);
    }
}

pub proof fn lemma_exponent_bounds(s: Seq<char>, p: int)
    requires
        0 <= p <= s.len(),
    ensures
        exponent_end(s, p) matches Some(q) ==> p < q <= s.len(),
{
    if p < s.len() {
        lemma_skip_digits_bounds(s, p + 1);
        lemma_skip_digits_bounds(s, p + 2);
    }
}

pub proof fn lemma_decimal_bounds(s: Seq<char>, p: int)
    requires
        0 <= p <= s.len(),
    ensures
        decimal_end(s, p) matches Some(q) ==> p < q <= s.len(),
{
    let p1 = if is_sign_at(s, p) {
        p + 1
    } else {
        p
    };
    lemma_skip_digits_bounds(s, p1);
    lemma_skip_digits_bounds(s, p1 + 1);
    let q = skip_digits(s, p1);
    lemma_skip_digits_bounds(s, q + 1);
    if p1 + 1 <= s.len() {
        lemma_exponent_bounds(s, skip_digits(s, p1 + 1));
    }
    if q + 1 <= s.len() {
        lemma_exponent_bounds(s, skip_digits(s, q + 1));
    }
    lemma_exponent_bounds(s, q);
}

fn is_digit_char(c: char) -> (r: bool)
    ensures
        r == is_digit(c),
{
    '0' <= c && c <= '9'
}

pub fn hex_digit_of(c: char) -> (r: Option<u64>)
    ensures
        match hex_digit(c) {
            Some(v) => r == Some(v as u64) && v < 16,
            None => r is None,
        },
{
    if '0' <= c && c <= '9' {
        Some((c as u32 - '0' as u32) as u64)
    } else if 'a' <= c && c <= 'f' {
        Some((c as u32 - 'a' as u32 + 10) as u64)
    } else if 'A' <= c && c <= 'F' {
        Some((c as u32 - 'A' as u32 + 10) as u64)
    } else {
        None
    }
}

fn digits_end(s: &Vec<char>, p: usize) -> (r: usize)
    requires
        p <= s.len(),
    ensures
        r as int == skip_digits(s@, p as int),
        p <= r <= s.len(),
{
    let mut j = p;
    while j < s.len() && is_digit_char(s[j])
        invariant
            p <= j <= s.len(),
            skip_digits(s@, j as int) == skip_digits(s@, p as int),
        decreases s.len() - j,
    {
        j = j + 1;
    }
    j
}

fn is_sign(s: &Vec<char>, p: usize) -> (r: bool)
    ensures
        r == is_sign_at(s@, p as int),
{
    p < s.len() && (s[p] == '+' || s[p] == '-')
}

fn exponent(s: &Vec<char>, p: usize) -> (r: Option<usize>)
    requires
        p <= s.len(),
    ensures
        crate::text::same_end(r, exponent_end(s@, p as int)),
        r matches Some(q) ==> p < q <= s.len(),
{
    if p < s.len() && (s[p] == 'e' || s[p] == 'E') {
        let q = if is_sign(s, p + 1) {
            p + 2
        } else {
            p + 1
        };
        let r = digits_end(s, q);
        if r > q {
            Some(r)
        } else {
            None
        }
    } else {
        None
    }
}

pub proof fn lemma_hex_value_push(d: Seq<char>, c: char)
    requires
        hex_digit(c) is Some,
    ensures
        hex_value(d.push(c)) == hex_value(d) * 16 + hex_digit(c)->0,
{
    assert(d.push(c).drop_last() =~= d);
}

/// Recognizes a hexadecimal number whose value fits in 64 bits.
pub fn hex_number(s: &Vec<char>, p: usize) -> (r: Option<(usize, u64)>)
    requires
        p <= s.len(),
    ensures
        match r {
            Some((q, v)) => hex_number_spec(s@, p as int) == Some((q as int, v)) && p + 2 < q <= s.len(),
            None => hex_number_spec(s@, p as int) is None,
        },
{
    if !(p < s.len() && s[p] == '0' && p + 1 < s.len() && (s[p + 1] == 'x' || s[p + 1] == 'X')) {
        return None;
    }
    let start = p + 2;
    let mut j = start;
    let mut v: u64 = 0;
    let mut fits = true;
    while j < s.len() && hex_digit_of(s[j]).is_some()
        invariant
            start <= j <= s.len(),
            skip_hex_digits(s@, j as int) == skip_hex_digits(s@, start as int),
            forall|k: int| start <= k < j ==> hex_digit(#[trigger] s@[k]) is Some,
            fits ==> v as nat == hex_value(s@.subrange(start as int, j as int)),
            !fits ==> hex_value(s@.subrange(start as int, j as int)) > u64::MAX,
        decreases s.len() - j,
    {
        let d = match hex_digit_of(s[j]) {
            Some(d) => d,
            None => 0,
        };
        proof {
            assert(s@.subrange(start as int, j + 1) =~= s@.subrange(start as int, j as int).push(
                s@[j as int],
            ));
            lemma_hex_value_push(s@.subrange(start as int, j as int), s@[j as int]);
        }
        if fits {
            if v <= (u64::MAX - d) / 16 {
                v = v * 16 + d;
            } else {
                fits = false;
            }
        }
        j = j + 1;
    }
    assert(skip_hex_digits(s@, j as int) == j as int);
    if j == start || !fits {
        None
    } else {
        Some((j, v))
    }
}

fn decimal_number_end(s: &Vec<char>, p: usize) -> (r: Option<usize>)
    requires
        p <= s.len(),
    ensures
        crate::text::same_end(r, decimal_end(s@, p as int)),
        r matches Some(q) ==> p < q <= s.len(),
{
    proof {
        lemma_decimal_bounds(s@, p as int);
    }
    let p1 = if is_sign(s, p) {
        p + 1
    } else {
        p
    };
    if p1 < s.len() && s[p1] == '.' && digits_end(s, p1 + 1) > p1 + 1 {
        let q = digits_end(s, p1 + 1);
        match exponent(s, q) {
            Some(r) => Some(r),
            None => Some(q),
        }
    } else {
        let q = digits_end(s, p1);
        if q == p1 {
            None
        } else {
            let has_point = q < s.len() && s[q] == '.';
            let f = if has_point && digits_end(s, q + 1) > q + 1 {
                digits_end(s, q + 1)
            } else {
                q
            };
            match exponent(s, f) {
                Some(r) => Some(r),
                None => if has_point {
                    Some(digits_end(s, q + 1))
                } else {
                    Some(q)
                },
            }
        }
    }
}

/// Recognizes a decimal literal at `p`.
pub fn decimal_number(s: &Vec<char>, p: usize) -> (r: Option<(usize, Number)>)
    requires
        p <= s.len(),
    ensures
        match r {
            Some((q, n)) => decimal_end(s@, p as int) == Some(q as int) && n@ == NumberV::Decimal(s@.subrange(p as int, q as int)) && p < q <= s.len(),
            None => decimal_end(s@, p as int) is None,
        },
{
    match decimal_number_end(s, p) {
        Some(q) => Some((q, Number::Decimal(Decimal { text: string_of(s, p, q) }))),
        None => None,
    }
}

/// Recognizes a number literal at `p`: hexadecimal first, then decimal.
pub fn number(s: &Vec<char>, p: usize) -> (r: Option<(usize, Number)>)
    requires
        p <= s.len(),
    ensures
        match r {
            Some((q, n)) => number_spec(s@, p as int) == Some((q as int, n@)) && p < q <= s.len(),
            None => number_spec(s@, p as int) is None,
        },
{
    match hex_number(s, p) {
        Some((q, v)) => {
            Some((q, Number::Hex(v)))
        },
        None => decimal_number(s, p),
    }
}

pub proof fn lemma_skip_hex_bounds(s: Seq<char>, p: int)
    requires
        0 <= p <= s.len(),
    ensures
        p <= skip_hex_digits(s, p) <= s.len(),
    decreases s.len() - p,
{
    if p < s.len() && hex_digit(s[p]) is Some {
        lemma_skip_hex_bounds(s, p + 1);
    }
}

} // verus!
