//! Symbols: identifiers, numbers, operators and quotes, and the recognizer
//! that tells them apart.

use vstd::prelude::*;
use crate::error::{mismatch, mismatch_at, Outcome, ParseError, ErrorKind};
use crate::number::{number, number_spec, Number, NumberV};
use crate::operator::{op_token_spec, OpV, Operator, OperatorTable};
use crate::quote::{quote, quote_spec, Quote};
use crate::text::string_of;

verus! {

/// The mathematical form of a symbol.
pub enum SymbolV {
    Identifier(Seq<char>),
    Number(NumberV),
    Operator(OpV),
    Quote(Seq<char>),
}

/// An identifier: one or more alphanumeric characters or underscores,
/// copied from the source.
#[derive(Debug, Clone)]
pub struct Identifier(String);

impl PartialEq for Identifier {
    /// Identifiers are equal when they are written alike.
    fn eq(&self, other: &Identifier) -> (r: bool)
        ensures
            r == (self@ == other@),
    {
        self.0 == other.0
    }
}

impl vstd::std_specs::cmp::PartialEqSpecImpl for Identifier {
    open spec fn obeys_eq_spec() -> bool {
        true
    }

    open spec fn eq_spec(&self, other: &Identifier) -> bool {
        self@ == other@
    }
}

impl View for Identifier {
    type V = Seq<char>;

    closed spec fn view(&self) -> Seq<char> {
        self.0@
    }
}

impl Identifier {
    /// An identifier written `text`.
    pub fn new(text: &str) -> (r: Identifier)
        ensures
            r@ == text@,
    {
        Identifier(text.to_string())
    }

    /// The identifier as written.
    pub fn text(&self) -> (r: &str)
        ensures
            r@ == self@,
    {
        self.0.as_str()
    }
}

/// A symbol.
#[derive(Debug, Clone)]
pub enum Symbol {
    /// Identifier.
    Identifier(Identifier),
    /// Number.
    Number(Number),
    /// Operator.
    Operator(Operator),
    /// Quote.
    Quote(Quote),
}

impl View for Symbol {
    type V = SymbolV;

    open spec fn view(&self) -> SymbolV {
        match self {
            Symbol::Identifier(i) => SymbolV::Identifier(i@),
            Symbol::Number(n) => SymbolV::Number(n@),
            Symbol::Operator(o) => SymbolV::Operator(o@),
            Symbol::Quote(q) => SymbolV::Quote(q@),
        }
    }
}

/// Symbols are equal when they are of one kind and agree: identifiers,
/// numbers and quotes by their contents, operators by their symbol alone,
/// whatever their precedence.
pub open spec fn symbol_eq(a: SymbolV, b: SymbolV) -> bool {
    match (a, b) {
        (SymbolV::Identifier(x), SymbolV::Identifier(y)) => x == y,
        (SymbolV::Number(x), SymbolV::Number(y)) => x == y,
        (SymbolV::Operator(x), SymbolV::Operator(y)) => x.0 == y.0,
        (SymbolV::Quote(x), SymbolV::Quote(y)) => x == y,
        _ => false,
    }
}

impl PartialEq for Symbol {
    fn eq(&self, other: &Symbol) -> (r: bool)
        ensures
            r == symbol_eq(self@, other@),
    {
        match (self, other) {
            (Symbol::Identifier(a), Symbol::Identifier(b)) => a.eq(b),
            (Symbol::Number(a), Symbol::Number(b)) => a.eq(b),
            (Symbol::Operator(a), Symbol::Operator(b)) => a.eq(b),
            (Symbol::Quote(a), Symbol::Quote(b)) => a.eq(b),
            _ => false,
        }
    }
}

impl vstd::std_specs::cmp::PartialEqSpecImpl for Symbol {
    open spec fn obeys_eq_spec() -> bool {
        true
    }

    open spec fn eq_spec(&self, other: &Symbol) -> bool {
        symbol_eq(self@, other@)
    }
}

impl Symbol {
    /// Whether this symbol is an operator.
    pub fn is_operator(&self) -> (r: bool)
        ensures
            r == (self@ is Operator),
    {
        match self {
            Symbol::Operator(_) => true,
            _ => false,
        }
    }
}

/// What `char::is_alphanumeric` answers for a character outside ASCII.
pub uninterp spec fn unicode_alphanumeric(c: char) -> bool;

/// An ASCII letter or digit.
pub open spec fn ascii_alphanumeric(c: char) -> bool {
    ('a' <= c && c <= 'z') || ('A' <= c && c <= 'Z') || ('0' <= c && c <= '9')
}

/// What `char::is_alphanumeric` answers for `c`: on ASCII, letters and
/// digits.
pub open spec fn alphanumeric(c: char) -> bool {
    if c <= '\x7f' {
        ascii_alphanumeric(c)
    } else {
        unicode_alphanumeric(c)
    }
}

/// Relies on `char::is_alphanumeric`, which is `is_alphabetic() ||
/// is_numeric()`: on ASCII these hold of `a..=z`, `A..=Z` and `0..=9`
/// alone; beyond ASCII they follow the Unicode Alphabetic and Numeric
/// properties, and the answer depends on the character alone.
#[verifier::external_body]
fn is_alphanumeric(c: char) -> (r: bool)
    ensures
        c <= '\x7f' ==> r == ascii_alphanumeric(c),
        c > '\x7f' ==> r == unicode_alphanumeric(c),
{
    c.is_alphanumeric()
}

/// A character that may stand in an identifier.
pub open spec fn is_ident_char(c: char) -> bool {
    alphanumeric(c) || c == '_'
}

/// The end of the run of identifier characters that starts at `p`.
pub open spec fn skip_ident(s: Seq<char>, p: int) -> int
    decreases s.len() - p,
{
    if 0 <= p < s.len() && is_ident_char(s[p]) {
        skip_ident(s, p + 1)
    } else {
        p
    }
}

/// The longest run of one or more identifier characters at `p`.
pub open spec fn identifier_spec(s: Seq<char>, p: int) -> Option<(int, Seq<char>)> {
    let q = skip_ident(s, p);
    if q > p {
        Some((q, s.subrange(p, q)))
    } else {
        None
    }
}

/// A symbol at `p`: a quote, an operator, a number or an identifier, the
/// first of these that matches.
pub open spec fn symbol_spec(t: Seq<OpV>, s: Seq<char>, p: int) -> Outcome<SymbolV> {
    match quote_spec(s, p) {
        Ok((q, v)) => Ok((q, SymbolV::Quote(v))),
        Err(e) => if e.kind == ErrorKind::Fatal {
            Err(e)
        } else {
            match op_token_spec(t, s, p) {
                Some((q, o)) => Ok((q, SymbolV::Operator(o))),
                None => match number_spec(s, p) {
                    Some((q, n)) => Ok((q, SymbolV::Number(n))),
                    None => match identifier_spec(s, p) {
                        Some((q, w)) => Ok((q, SymbolV::Identifier(w))),
                        None => Err(mismatch_at(p)),
                    },
                },
            }
        },
    }
}

/// The end of the run of identifier characters from `i` on, `alnum[k]`
/// telling whether the character at `p + k` is alphanumeric; the run also
/// stops where `alnum` ends.
pub open spec fn flagged_end(s: Seq<char>, p: int, alnum: Seq<bool>, i: int) -> int
    decreases s.len() - i,
{
    if p <= i && 0 <= i < s.len() && i - p < alnum.len() && (alnum[i - p] || s[i] == '_') {
        flagged_end(s, p, alnum, i + 1)
    } else {
        i
    }
}

/// The end of the run of identifier characters that starts at `p`, given
/// for each character from `p` on whether it is alphanumeric; the run also
/// stops where `alnum` ends.
pub fn ident_end(s: &Vec<char>, p: usize, alnum: &Vec<bool>) -> (r: usize)
    requires
        p <= s.len(),
    ensures
        r as int == flagged_end(s@, p as int, alnum@, p as int),
        p <= r <= s.len(),
{
    let mut j = p;
    while j < s.len() && j - p < alnum.len() && (alnum[j - p] || s[j] == '_')
        invariant
            p <= j <= s.len(),
            flagged_end(s@, p as int, alnum@, j as int) == flagged_end(s@, p as int, alnum@, p as int),
        decreases s.len() - j,
    {
        j = j + 1;
    }
    j
}

proof fn lemma_flagged_end(s: Seq<char>, p: int, alnum: Seq<bool>, i: int)
    requires
        0 <= p <= i <= p + alnum.len() <= s.len(),
        forall|k: int| 0 <= k < alnum.len() ==> alnum[k] == alphanumeric(#[trigger] s[p + k]),
        forall|k: int| p <= k < i ==> is_ident_char(#[trigger] s[k]),
        p + alnum.len() == s.len() || (alnum.len() > 0 && !is_ident_char(s[p + alnum.len() - 1])),
    ensures
        flagged_end(s, p, alnum, i) == skip_ident(s, i),
    decreases s.len() - i,
{
    if i < p + alnum.len() {
        assert(alnum[i - p] == alphanumeric(s[p + (i - p)]));
        if is_ident_char(s[i]) {
            lemma_flagged_end(s, p, alnum, i + 1);
        }
    } else if i < s.len() {
        assert(is_ident_char(s[i - 1]));
    }
}

/// Recognizes an identifier at `p`.
pub fn identifier(s: &Vec<char>, p: usize) -> (r: Option<(usize, Identifier)>)
    requires
        p <= s.len(),
    ensures
        match r {
            Some((q, w)) => identifier_spec(s@, p as int) == Some((q as int, w@)) && p < q <= s.len(),
            None => identifier_spec(s@, p as int) is None,
        },
{
    let mut alnum: Vec<bool> = Vec::new();
    let mut j = p;
    loop
        invariant_except_break
            alnum@.len() == j - p,
        invariant
            p <= j <= s.len(),
            forall|k: int| 0 <= k < alnum@.len() ==> alnum@[k] == alphanumeric(#[trigger] s@[p + k]),
            forall|k: int| p <= k < j ==> is_ident_char(#[trigger] s@[k]),
        ensures
            p <= j <= s.len(),
            alnum@.len() == j - p || alnum@.len() == j - p + 1,
            p + alnum@.len() <= s.len(),
            forall|k: int| 0 <= k < alnum@.len() ==> alnum@[k] == alphanumeric(#[trigger] s@[p + k]),
            forall|k: int| p <= k < j ==> is_ident_char(#[trigger] s@[k]),
            p + alnum@.len() == s.len() || (alnum@.len() > 0 && !is_ident_char(s@[p + alnum@.len() - 1])),
            alnum@.len() == j - p + 1 ==> !is_ident_char(s@[j as int]),
            alnum@.len() == j - p ==> j == s.len(),
        decreases s.len() - j,
    {
        if j >= s.len() {
            break;
        }
        let a = is_alphanumeric(s[j]);
        alnum.push(a);
        assert(alnum@[j - p] == alphanumeric(s@[p + (j - p)]));
        if !(a || s[j] == '_') {
            break;
        }
        j = j + 1;
    }
    let q = ident_end(s, p, &alnum);
    proof {
        lemma_flagged_end(s@, p as int, alnum@, p as int);
        lemma_skip_ident_bounds(s@, p as int);
    }
    if q > p {
        Some((q, Identifier(string_of(s, p, q))))
    } else {
        None
    }
}

/// Recognizes a symbol at `p`: a quote, an operator of `table`, a number or
/// an identifier, the first of these that matches.
pub fn symbol(table: &OperatorTable, s: &Vec<char>, p: usize) -> (r: Result<(usize, Symbol), ParseError>)
    requires
        p <= s.len(),
    ensures
        match r {
            Ok((q, v)) => symbol_spec(table@, s@, p as int) == Ok::<(int, SymbolV), ParseError>((q as int, v@)) && p < q <= s.len(),
            Err(e) => symbol_spec(table@, s@, p as int) == Err::<(int, SymbolV), ParseError>(e),
        },
{
    match quote(s, p) {
        Ok((q, v)) => {
            return Ok((q, Symbol::Quote(v)));
        },
        Err(e) => {
            if e.kind == ErrorKind::Fatal {
                return Err(e);
            }
        },
    }
    match table.op_token(s, p) {
        Some((q, o)) => {
            return Ok((q, Symbol::Operator(o)));
        },
        None => {},
    }
    match number(s, p) {
        Some((q, n)) => {
            return Ok((q, Symbol::Number(n)));
        },
        None => {},
    }
    match identifier(s, p) {
        Some((q, w)) => Ok((q, Symbol::Identifier(w))),
        None => Err(mismatch(p)),
    }
}

pub proof fn lemma_skip_ident_bounds(s: Seq<char>, p: int)
    requires
        0 <= p <= s.len(),
    ensures
        p <= skip_ident(s, p) <= s.len(),
    decreases s.len() - p,
{
    if p < s.len() && is_ident_char(s[p]) {
        lemma_skip_ident_bounds(s, p + 1);
    }
}

} // verus!
