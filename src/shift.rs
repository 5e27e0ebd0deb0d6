//! Text put before the input moves every recognizer's answer by its length
//! and changes nothing else: recognizers read only what follows their start.
//! From this, a comment put before a program leaves its parse unchanged.

use vstd::prelude::*;
use crate::error::{Outcome, ParseError};
use crate::number::{
    decimal_end, exponent_end, is_sign_at, number_spec, skip_digits,
    skip_hex_digits,
};
use crate::operator::{first_match, prefix_at, OpV};
use crate::quote::{decode, hex_run, quote_spec, tri_quote_spec, triple_at, triple_close};
use crate::symbol::{identifier_spec, skip_ident, symbol_spec};
use crate::parser::{
    arg_list_spec, arg_rest_spec, argument_spec, bracket_close, arguments_spec, chain_list_spec, chain_spec,
    chains_spec, message_spec, messages_spec, parse_spec,
};
use crate::text::{
    block_close, char_at, comment_end, lemma_comment_bounds, lemma_skip_scpad_bounds,
    lemma_skip_separators_bounds, lemma_skip_wcpad_bounds, line_end, lemma_terminator_bounds,
    scpad_end, skip_scpad, skip_separators, skip_wcpad, terminator_end, wcpad_end,
};

verus! {

/// An answer moved `k` characters to the right.
pub open spec fn shifted<V>(o: Outcome<V>, k: int) -> Outcome<V> {
    match o {
        Ok((q, v)) => Ok((q + k, v)),
        Err(e) => Err(ParseError { kind: e.kind, pos: (e.pos + k) as usize }),
    }
}

pub open spec fn shifted_end(o: Option<int>, k: int) -> Option<int> {
    match o {
        Some(q) => Some(q + k),
        None => None,
    }
}

proof fn lemma_index(pre: Seq<char>, s: Seq<char>, i: int)
    requires
        0 <= i < s.len(),
    ensures
        (pre + s)[i + pre.len()] == s[i],
{
}

proof fn lemma_line_end(pre: Seq<char>, s: Seq<char>, i: int)
    requires
        0 <= i <= s.len(),
    ensures
        line_end(pre + s, i + pre.len()) == line_end(s, i) + pre.len(),
    decreases s.len() - i,
{
    if i < s.len() {
        lemma_index(pre, s, i);
        lemma_line_end(pre, s, i + 1);
    }
}

proof fn lemma_block_close(pre: Seq<char>, s: Seq<char>, i: int)
    requires
        0 <= i,
    ensures
        block_close(pre + s, i + pre.len()) == shifted_end(block_close(s, i), pre.len() as int),
    decreases s.len() - i,
{
    if i + 1 < s.len() {
        lemma_index(pre, s, i);
        lemma_index(pre, s, i + 1);
        lemma_block_close(pre, s, i + 1);
    }
}

proof fn lemma_comment(pre: Seq<char>, s: Seq<char>, p: int)
    requires
        0 <= p <= s.len(),
    ensures
        comment_end(pre + s, p + pre.len()) == shifted_end(comment_end(s, p), pre.len() as int),
{
    let k = pre.len() as int;
    if p < s.len() {
        lemma_index(pre, s, p);
        lemma_line_end(pre, s, p + 1);
    }
    if p + 1 < s.len() {
        lemma_index(pre, s, p + 1);
        lemma_line_end(pre, s, p + 2);
        lemma_block_close(pre, s, p + 2);
    }
    if p + 1 == s.len() {
        assert(!char_at(pre + s, p + 1 + k, '/'));
        assert(!char_at(pre + s, p + 1 + k, '*'));
    }
}

proof fn lemma_scpad(pre: Seq<char>, s: Seq<char>, p: int)
    requires
        0 <= p <= s.len(),
    ensures
        scpad_end(pre + s, p + pre.len()) == shifted_end(scpad_end(s, p), pre.len() as int),
        wcpad_end(pre + s, p + pre.len()) == shifted_end(wcpad_end(s, p), pre.len() as int),
{
    lemma_comment(pre, s, p);
    if p < s.len() {
        lemma_index(pre, s, p);
    }
}

proof fn lemma_skip_scpad(pre: Seq<char>, s: Seq<char>, p: int)
    requires
        0 <= p <= s.len(),
    ensures
        skip_scpad(pre + s, p + pre.len()) == skip_scpad(s, p) + pre.len(),
    decreases s.len() - p,
{
    lemma_scpad(pre, s, p);
    lemma_comment_bounds(s, p);
    if let Some(q) = scpad_end(s, p) {
        lemma_skip_scpad(pre, s, q);
    }
}

pub proof fn lemma_skip_wcpad(pre: Seq<char>, s: Seq<char>, p: int)
    requires
        0 <= p <= s.len(),
    ensures
        skip_wcpad(pre + s, p + pre.len()) == skip_wcpad(s, p) + pre.len(),
    decreases s.len() - p,
{
    lemma_scpad(pre, s, p);
    lemma_comment_bounds(s, p);
    if let Some(q) = wcpad_end(s, p) {
        lemma_skip_wcpad(pre, s, q);
    }
}

proof fn lemma_skip_separators(pre: Seq<char>, s: Seq<char>, p: int)
    requires
        0 <= p <= s.len(),
    ensures
        skip_separators(pre + s, p + pre.len()) == skip_separators(s, p) + pre.len(),
    decreases s.len() - p,
{
    if p < s.len() {
        lemma_index(pre, s, p);
        lemma_skip_separators(pre, s, p + 1);
    }
}

proof fn lemma_terminator(pre: Seq<char>, s: Seq<char>, p: int)
    requires
        0 <= p <= s.len(),
    ensures
        terminator_end(pre + s, p + pre.len()) == shifted_end(terminator_end(s, p), pre.len() as int),
{
    lemma_skip_separators(pre, s, p);
    lemma_skip_separators_bounds(s, p);
    let q = skip_separators(s, p);
    if q < s.len() {
        lemma_index(pre, s, q);
    }
    if p < s.len() {
        lemma_index(pre, s, p);
    }
    if p + 1 < s.len() {
        lemma_index(pre, s, p + 1);
    }
}

proof fn lemma_subrange(pre: Seq<char>, s: Seq<char>, a: int, b: int)
    requires
        0 <= a <= b <= s.len(),
    ensures
        (pre + s).subrange(a + pre.len(), b + pre.len()) == s.subrange(a, b),
{
    assert((pre + s).subrange(a + pre.len(), b + pre.len()) =~= s.subrange(a, b));
}

proof fn lemma_triple_close(pre: Seq<char>, s: Seq<char>, i: int)
    requires
        0 <= i,
    ensures
        triple_close(pre + s, i + pre.len()) == shifted_end(triple_close(s, i), pre.len() as int),
    decreases s.len() - i,
{
    if i + 3 <= s.len() {
        lemma_index(pre, s, i);
        lemma_index(pre, s, i + 1);
        lemma_index(pre, s, i + 2);
        lemma_triple_close(pre, s, i + 1);
    }
}

proof fn lemma_tri_quote(pre: Seq<char>, s: Seq<char>, p: int)
    requires
        0 <= p <= s.len(),
    ensures
        tri_quote_spec(pre + s, p + pre.len()) == match tri_quote_spec(s, p) {
            Some((q, t)) => Some((q + pre.len(), t)),
            None => None,
        },
{
    let k = pre.len() as int;
    if p + 3 <= s.len() {
        lemma_index(pre, s, p);
        lemma_index(pre, s, p + 1);
        lemma_index(pre, s, p + 2);
        lemma_triple_close(pre, s, p + 3);
        crate::quote::lemma_triple_close_bounds(s, p + 3);
        if let Some(i) = triple_close(s, p + 3) {
            lemma_subrange(pre, s, p + 3, i);
        }
    } else {
        assert(!triple_at(s, p));
        assert(!triple_at(pre + s, p + k));
    }
}

proof fn lemma_hex_run(pre: Seq<char>, s: Seq<char>, i: int, n: int)
    requires
        0 <= i,
        0 <= n,
    ensures
        hex_run(pre + s, i + pre.len(), n) == hex_run(s, i, n),
        hex_run(s, i, n) ==> (pre + s).subrange(i + pre.len(), i + pre.len() + n) == s.subrange(i, i + n),
{
    let k = pre.len() as int;
    if hex_run(s, i, n) {
        assert forall|j: int| i + k <= j < i + k + n implies (#[trigger] crate::number::hex_digit((pre + s)[j])) is Some by {
            lemma_index(pre, s, j - k);
        }
        lemma_subrange(pre, s, i, i + n);
    }
    if hex_run(pre + s, i + k, n) {
        assert forall|j: int| i <= j < i + n implies (#[trigger] crate::number::hex_digit(s[j])) is Some by {
            lemma_index(pre, s, j);
            assert((pre + s)[j + k] == s[j]);
        }
    }
}

proof fn lemma_decode(pre: Seq<char>, s: Seq<char>, i: int, acc: Seq<char>)
    requires
        0 <= i,
        (pre + s).len() <= usize::MAX,
    ensures
        decode(pre + s, i + pre.len(), acc) == shifted(decode(s, i, acc), pre.len() as int),
    decreases s.len() - i,
{
    let k = pre.len() as int;
    if i < s.len() {
        lemma_index(pre, s, i);
        if s[i] == '\\' && i + 1 < s.len() {
            lemma_index(pre, s, i + 1);
            let e = s[i + 1];
            if crate::quote::simple_escape(e) is Some {
                lemma_decode(pre, s, i + 2, acc.push(crate::quote::simple_escape(e)->0));
            } else if crate::quote::escape_width(e) > 0 {
                let n = crate::quote::escape_width(e);
                lemma_hex_run(pre, s, i + 2, n);
                if hex_run(s, i + 2, n) {
                    let v = crate::number::hex_value(s.subrange(i + 2, i + 2 + n));
                    if crate::quote::is_scalar(v) {
                        lemma_decode(pre, s, i + 2 + n, acc.push(crate::quote::char_of(v)));
                    }
                }
            } else {
                lemma_decode(pre, s, i + 2, acc.push(e));
            }
        } else if s[i] != '"' && s[i] != '\n' && s[i] != '\\' {
            lemma_decode(pre, s, i + 1, acc.push(s[i]));
        }
    }
}

proof fn lemma_quote(pre: Seq<char>, s: Seq<char>, p: int)
    requires
        0 <= p <= s.len(),
        (pre + s).len() <= usize::MAX,
    ensures
        quote_spec(pre + s, p + pre.len()) == shifted(quote_spec(s, p), pre.len() as int),
{
    lemma_tri_quote(pre, s, p);
    if p < s.len() {
        lemma_index(pre, s, p);
        lemma_decode(pre, s, p + 1, seq![]);
    }
}

proof fn lemma_prefix_at(pre: Seq<char>, s: Seq<char>, p: int, w: Seq<char>)
    requires
        0 <= p <= s.len(),
    ensures
        prefix_at(pre + s, p + pre.len(), w) == prefix_at(s, p, w),
{
    if p + w.len() <= s.len() {
        lemma_subrange(pre, s, p, p + w.len());
    }
}

proof fn lemma_first_match(pre: Seq<char>, s: Seq<char>, t: Seq<OpV>, p: int, i: int)
    requires
        0 <= p <= s.len(),
        0 <= i,
    ensures
        first_match(t, pre + s, p + pre.len(), i) == first_match(t, s, p, i),
    decreases t.len() - i,
{
    if i < t.len() {
        lemma_prefix_at(pre, s, p, t[i].0);
        lemma_first_match(pre, s, t, p, i + 1);
    }
}

proof fn lemma_skip_digits(pre: Seq<char>, s: Seq<char>, p: int)
    requires
        0 <= p,
    ensures
        skip_digits(pre + s, p + pre.len()) == skip_digits(s, p) + pre.len(),
        skip_hex_digits(pre + s, p + pre.len()) == skip_hex_digits(s, p) + pre.len(),
        skip_ident(pre + s, p + pre.len()) == skip_ident(s, p) + pre.len(),
    decreases s.len() - p,
{
    if p < s.len() {
        lemma_index(pre, s, p);
        lemma_skip_digits(pre, s, p + 1);
    }
}

proof fn lemma_exponent(pre: Seq<char>, s: Seq<char>, p: int)
    requires
        0 <= p,
    ensures
        exponent_end(pre + s, p + pre.len()) == shifted_end(exponent_end(s, p), pre.len() as int),
{
    if p < s.len() {
        lemma_index(pre, s, p);
    }
    if p + 1 < s.len() {
        lemma_index(pre, s, p + 1);
    }
    lemma_skip_digits(pre, s, p + 1);
    lemma_skip_digits(pre, s, p + 2);
}

proof fn lemma_number(pre: Seq<char>, s: Seq<char>, p: int)
    requires
        0 <= p <= s.len(),
    ensures
        number_spec(pre + s, p + pre.len()) == match number_spec(s, p) {
            Some((q, n)) => Some((q + pre.len(), n)),
            None => None,
        },
{
    let k = pre.len() as int;
    if p < s.len() {
        lemma_index(pre, s, p);
    }
    if p + 1 < s.len() {
        lemma_index(pre, s, p + 1);
    }
    lemma_skip_digits(pre, s, p + 2);
    crate::number::lemma_skip_hex_bounds(s, p);
    if p + 2 <= s.len() {
        crate::number::lemma_skip_hex_bounds(s, p + 2);
        let q = skip_hex_digits(s, p + 2);
        lemma_subrange(pre, s, p + 2, q);
    }
    let p1 = if is_sign_at(s, p) { p + 1 } else { p };
    assert(is_sign_at(pre + s, p + k) == is_sign_at(s, p));
    if p1 < s.len() {
        lemma_index(pre, s, p1);
    }
    lemma_skip_digits(pre, s, p1);
    lemma_skip_digits(pre, s, p1 + 1);
    let q1 = skip_digits(s, p1 + 1);
    crate::number::lemma_skip_digits_bounds(s, p1 + 1);
    lemma_exponent(pre, s, q1);
    let q = skip_digits(s, p1);
    crate::number::lemma_skip_digits_bounds(s, p1);
    if q < s.len() {
        lemma_index(pre, s, q);
    }
    lemma_skip_digits(pre, s, q + 1);
    crate::number::lemma_skip_digits_bounds(s, q + 1);
    let f = if char_at(s, q, '.') && skip_digits(s, q + 1) > q + 1 { skip_digits(s, q + 1) } else { q };
    lemma_exponent(pre, s, f);
    lemma_exponent(pre, s, q);
    crate::number::lemma_decimal_bounds(s, p);
    if let Some(e) = decimal_end(s, p) {
        lemma_subrange(pre, s, p, e);
    }
}

proof fn lemma_identifier(pre: Seq<char>, s: Seq<char>, p: int)
    requires
        0 <= p <= s.len(),
    ensures
        identifier_spec(pre + s, p + pre.len()) == match identifier_spec(s, p) {
            Some((q, w)) => Some((q + pre.len(), w)),
            None => None,
        },
{
    lemma_skip_digits(pre, s, p);
    crate::symbol::lemma_skip_ident_bounds(s, p);
    lemma_subrange(pre, s, p, skip_ident(s, p));
}

pub proof fn lemma_symbol(pre: Seq<char>, s: Seq<char>, t: Seq<OpV>, p: int)
    requires
        0 <= p <= s.len(),
        (pre + s).len() <= usize::MAX,
    ensures
        symbol_spec(t, pre + s, p + pre.len()) == shifted(symbol_spec(t, s, p), pre.len() as int),
{
    lemma_quote(pre, s, p);
    lemma_first_match(pre, s, t, p, 0);
    lemma_number(pre, s, p);
    lemma_identifier(pre, s, p);
}

/// The answer ends inside the input, not before its start.
pub open spec fn ends_within<V>(o: Outcome<V>, p: int, n: int) -> bool {
    o matches Ok((q, v)) ==> p <= q <= n
}

proof fn lemma_decode_bounds(s: Seq<char>, i: int, acc: Seq<char>)
    requires
        0 <= i,
    ensures
        ends_within(decode(s, i, acc), i, s.len() as int),
    decreases s.len() - i,
{
    if i < s.len() && s[i] != '"' && s[i] != '\n' {
        if s[i] == '\\' {
            if i + 1 < s.len() {
                let e = s[i + 1];
                if crate::quote::simple_escape(e) is Some {
                    lemma_decode_bounds(s, i + 2, acc.push(crate::quote::simple_escape(e)->0));
                } else if crate::quote::escape_width(e) > 0 {
                    let n = crate::quote::escape_width(e);
                    if hex_run(s, i + 2, n) {
                        let v = crate::number::hex_value(s.subrange(i + 2, i + 2 + n));
                        lemma_decode_bounds(s, i + 2 + n, acc.push(crate::quote::char_of(v)));
                    }
                } else {
                    lemma_decode_bounds(s, i + 2, acc.push(e));
                }
            }
        } else {
            lemma_decode_bounds(s, i + 1, acc.push(s[i]));
        }
    }
}

proof fn lemma_symbol_bounds(t: Seq<OpV>, s: Seq<char>, p: int)
    requires
        0 <= p <= s.len(),
    ensures
        ends_within(symbol_spec(t, s, p), p, s.len() as int),
{
    crate::quote::lemma_triple_close_bounds(s, p + 3);
    lemma_decode_bounds(s, p + 1, seq![]);
    crate::operator::lemma_first_match(t, s, p, 0);
    crate::number::lemma_decimal_bounds(s, p);
    crate::number::lemma_skip_hex_bounds(s, p);
    if p + 2 <= s.len() {
        crate::number::lemma_skip_hex_bounds(s, p + 2);
    }
    crate::symbol::lemma_skip_ident_bounds(s, p);
}

proof fn lemma_pos(p: int, k: int)
    requires
        0 <= p,
        0 <= k,
        p + k <= usize::MAX,
    ensures
        ((p as usize) + k) as usize == (p + k) as usize,
{
}

pub open spec fn fits(pre: Seq<char>, s: Seq<char>) -> bool {
    (pre + s).len() <= usize::MAX
}

proof fn lemma_message(pre: Seq<char>, s: Seq<char>, t: Seq<OpV>, p: int)
    requires
        0 <= p <= s.len(),
        fits(pre, s),
    ensures
        message_spec(t, pre + s, p + pre.len()) == shifted(message_spec(t, s, p), pre.len() as int),
        ends_within(message_spec(t, s, p), p, s.len() as int),
    decreases s.len() - p, 1int,
{
    let k = pre.len() as int;
    lemma_pos(p, k);
    lemma_skip_scpad(pre, s, p);
    lemma_skip_scpad_bounds(s, p);
    let p1 = skip_scpad(s, p);
    lemma_symbol(pre, s, t, p1);
    lemma_symbol_bounds(t, s, p1);
    if let Ok((q, sym)) = symbol_spec(t, s, p1) {
        lemma_scpad(pre, s, q);
        lemma_comment_bounds(s, q);
        let q1 = match scpad_end(s, q) {
            Some(r) => r,
            None => q,
        };
        if p < q1 <= s.len() {
            lemma_arguments(pre, s, t, q1);
        }
    }
}

proof fn lemma_messages(pre: Seq<char>, s: Seq<char>, t: Seq<OpV>, p: int)
    requires
        0 <= p <= s.len(),
        fits(pre, s),
    ensures
        messages_spec(t, pre + s, p + pre.len()) == shifted(messages_spec(t, s, p), pre.len() as int),
        ends_within(messages_spec(t, s, p), p, s.len() as int),
    decreases s.len() - p, 2int,
{
    lemma_pos(p, pre.len() as int);
    lemma_message(pre, s, t, p);
    if let Ok((q, m)) = message_spec(t, s, p) {
        if p < q <= s.len() {
            lemma_messages(pre, s, t, q);
        }
    }
}

proof fn lemma_chain(pre: Seq<char>, s: Seq<char>, t: Seq<OpV>, p: int)
    requires
        0 <= p <= s.len(),
        fits(pre, s),
    ensures
        chain_spec(t, pre + s, p + pre.len()) == shifted(chain_spec(t, s, p), pre.len() as int),
        ends_within(chain_spec(t, s, p), p, s.len() as int),
    decreases s.len() - p, 3int,
{
    lemma_pos(p, pre.len() as int);
    lemma_messages(pre, s, t, p);
    if let Ok((q, ms)) = messages_spec(t, s, p) {
        lemma_terminator(pre, s, q);
        lemma_terminator_bounds(s, q);
    }
}

proof fn lemma_chain_list(pre: Seq<char>, s: Seq<char>, t: Seq<OpV>, p: int)
    requires
        0 <= p <= s.len(),
        fits(pre, s),
    ensures
        chain_list_spec(t, pre + s, p + pre.len()) == shifted(chain_list_spec(t, s, p), pre.len() as int),
        ends_within(chain_list_spec(t, s, p), p, s.len() as int),
    decreases s.len() - p, 4int,
{
    lemma_pos(p, pre.len() as int);
    lemma_chain(pre, s, t, p);
    if let Ok((q, c)) = chain_spec(t, s, p) {
        if p < q <= s.len() {
            lemma_chain_list(pre, s, t, q);
        }
    }
}

proof fn lemma_argument(pre: Seq<char>, s: Seq<char>, t: Seq<OpV>, p: int)
    requires
        0 <= p <= s.len(),
        fits(pre, s),
    ensures
        argument_spec(t, pre + s, p + pre.len()) == shifted(argument_spec(t, s, p), pre.len() as int),
        ends_within(argument_spec(t, s, p), p, s.len() as int),
    decreases s.len() - p, 5int,
{
    lemma_pos(p, pre.len() as int);
    lemma_skip_wcpad(pre, s, p);
    lemma_skip_wcpad_bounds(s, p);
    let p1 = skip_wcpad(s, p);
    lemma_chain_list(pre, s, t, p1);
    if let Ok((q, cs)) = chain_list_spec(t, s, p1) {
        lemma_skip_wcpad(pre, s, q);
        lemma_skip_wcpad_bounds(s, q);
    }
}

proof fn lemma_arg_rest(pre: Seq<char>, s: Seq<char>, t: Seq<OpV>, p: int)
    requires
        0 <= p <= s.len(),
        fits(pre, s),
    ensures
        arg_rest_spec(t, pre + s, p + pre.len()) == shifted(arg_rest_spec(t, s, p), pre.len() as int),
        ends_within(arg_rest_spec(t, s, p), p, s.len() as int),
    decreases s.len() - p, 6int,
{
    lemma_pos(p, pre.len() as int);
    if p < s.len() {
        lemma_index(pre, s, p);
    }
    if char_at(s, p, ',') {
        lemma_argument(pre, s, t, p + 1);
        if let Ok((q, a)) = argument_spec(t, s, p + 1) {
            if p < q <= s.len() {
                lemma_arg_rest(pre, s, t, q);
            }
        }
    }
}

proof fn lemma_arg_list(pre: Seq<char>, s: Seq<char>, t: Seq<OpV>, p: int)
    requires
        0 <= p <= s.len(),
        fits(pre, s),
    ensures
        arg_list_spec(t, pre + s, p + pre.len()) == shifted(arg_list_spec(t, s, p), pre.len() as int),
        ends_within(arg_list_spec(t, s, p), p, s.len() as int),
    decreases s.len() - p, 7int,
{
    lemma_pos(p, pre.len() as int);
    lemma_argument(pre, s, t, p);
    if let Ok((q, a)) = argument_spec(t, s, p) {
        if p < q <= s.len() {
            lemma_arg_rest(pre, s, t, q);
        }
    }
}

proof fn lemma_bracket_close(pre: Seq<char>, s: Seq<char>, p: int, q: int)
    requires
        0 <= p < s.len(),
        0 <= q <= s.len(),
    ensures
        bracket_close(pre + s, p + pre.len(), q + pre.len()) == shifted_end(bracket_close(s, p, q), pre.len() as int),
        bracket_close(s, p, q) matches Some(r) ==> q < r <= s.len(),
{
    let k = pre.len() as int;
    lemma_index(pre, s, p);
    if q < s.len() {
        lemma_index(pre, s, q);
        lemma_skip_wcpad(pre, s, q + 1);
        lemma_skip_wcpad_bounds(s, q + 1);
        let q2 = skip_wcpad(s, q + 1);
        if q2 < s.len() {
            lemma_index(pre, s, q2);
        }
    }
}

#[verifier::spinoff_prover]
#[verifier::rlimit(60)]
proof fn lemma_arguments(pre: Seq<char>, s: Seq<char>, t: Seq<OpV>, p: int)
    requires
        0 <= p <= s.len(),
        fits(pre, s),
    ensures
        arguments_spec(t, pre + s, p + pre.len()) == shifted(arguments_spec(t, s, p), pre.len() as int),
        ends_within(arguments_spec(t, s, p), p, s.len() as int),
    decreases s.len() - p, 8int,
{
    lemma_pos(p, pre.len() as int);
    if p < s.len() {
        lemma_index(pre, s, p);
        lemma_arg_list(pre, s, t, p + 1);
        if let Ok((q, args)) = arg_list_spec(t, s, p + 1) {
            lemma_bracket_close(pre, s, p, q);
        }
    }
}

proof fn lemma_chains(pre: Seq<char>, s: Seq<char>, t: Seq<OpV>, p: int)
    requires
        0 <= p <= s.len(),
        fits(pre, s),
    ensures
        chains_spec(t, pre + s, p + pre.len()) == shifted(chains_spec(t, s, p), pre.len() as int),
        ends_within(chains_spec(t, s, p), p, s.len() as int),
    decreases s.len() - p,
{
    lemma_pos(p, pre.len() as int);
    lemma_chain(pre, s, t, p);
    if let Ok((q, c)) = chain_spec(t, s, p) {
        lemma_skip_wcpad(pre, s, q);
        lemma_skip_wcpad_bounds(s, q);
        let q1 = skip_wcpad(s, q);
        if p < q1 <= s.len() {
            lemma_chains(pre, s, t, q1);
        }
    }
}

/// A comment put before a program, where it ends as a comment (a line
/// comment must meet a line ending or the end), changes nothing of the
/// parse: the same chains, or the same failure further on by the comment's
/// length.
pub proof fn lemma_leading_comment(t: Seq<OpV>, c: Seq<char>, s: Seq<char>)
    requires
        comment_end(c + s, 0) == Some(c.len() as int),
        (c + s).len() <= usize::MAX,
    ensures
        parse_spec(t, c + s) == match parse_spec(t, s) {
            Ok(cs) => Ok(cs),
            Err(e) => Err(ParseError { kind: e.kind, pos: (e.pos + c.len()) as usize }),
        },
{
    let k = c.len() as int;
    lemma_comment_bounds(c + s, 0);
    assert(wcpad_end(c + s, 0) == Some(k));
    assert(skip_wcpad(c + s, 0) == skip_wcpad(c + s, k));
    lemma_skip_wcpad(c, s, 0);
    lemma_skip_wcpad_bounds(s, 0);
    let p0 = skip_wcpad(s, 0);
    assert(p0 + k == skip_wcpad(c + s, 0));
    lemma_chains(c, s, t, p0);
    if let Ok((q, cs)) = chains_spec(t, s, p0) {
        lemma_pos(q, k);
    }
}

} // verus!
