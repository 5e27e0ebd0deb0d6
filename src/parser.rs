//! The grammar: messages, arguments, message chains and programs.
//!
//! ```text
//! program       := wcpad* (message_chain wcpad*)* EOF
//! message_chain := message+ terminator?
//! message       := scpad* symbol scpad? arguments?
//! arguments     := '(' arg_list (',' wcpad*)? ')'
//!                | '[' arg_list ']'
//!                | '{' arg_list '}'
//! arg_list      := argument (',' argument)*       (may be empty)
//! argument      := wcpad* message_chain+ wcpad*
//! ```
//!
//! Repetitions are greedy; an alternative is tried only where the one before
//! it did not match, and a fatal failure ends the parse.

use vstd::prelude::*;
use crate::ast::{
    arguments_v, chains_v, lemma_arguments_v_push, lemma_chains_v, lemma_chains_v_push,
    lemma_messages_v_push, messages_v, Argument, Message, MessageChain, MessageV,
};
use crate::error::{
    err_is, fatal, fatal_at, lemma_prefixed, lemma_prefixed_empty, mismatch, mismatch_at, ok_at, prefixed,
    ErrorKind, Outcome, ParseError,
};
use crate::operator::{first_match, op_token_spec, prefix_at, table_wf, OpV, OperatorTable};
use crate::restructure::{desugar_from, restructure, sort_from};
use crate::symbol::{is_ident_char, skip_ident, symbol, symbol_spec, SymbolV};
use crate::text::{
    char_at, chars_of, has_char, scpad, scpad_end, skip_scpad, skip_scpads, skip_wcpad,
    skip_wcpads, terminator, terminator_end,
};

verus! {

pub type Chain = Seq<MessageV>;

pub type Arg = Seq<Chain>;

/// `message := scpad* symbol scpad? arguments?`
pub open spec fn message_spec(t: Seq<OpV>, s: Seq<char>, p: int) -> Outcome<MessageV>
    decreases s.len() - p, 1int,
{
    if p < 0 || p > s.len() {
        Err(mismatch_at(p))
    } else {
        let p1 = skip_scpad(s, p);
        match symbol_spec(t, s, p1) {
            Err(e) => if e.kind == ErrorKind::Fatal {
                Err(e)
            } else {
                Err(mismatch_at(p))
            },
            Ok((q, sym)) => {
                let q1 = match scpad_end(s, q) {
                    Some(r) => r,
                    None => q,
                };
                if p < q1 <= s.len() {
                    match arguments_spec(t, s, q1) {
                        Ok((r, args)) => Ok((r, MessageV { symbol: sym, args })),
                        Err(e) => if e.kind == ErrorKind::Fatal {
                            Err(e)
                        } else {
                            Ok((q1, MessageV { symbol: sym, args: Seq::empty() }))
                        },
                    }
                } else {
                    Err(mismatch_at(p))
                }
            },
        }
    }
}

/// `message*`
pub open spec fn messages_spec(t: Seq<OpV>, s: Seq<char>, p: int) -> Outcome<Chain>
    decreases s.len() - p, 2int,
{
    if p < 0 || p > s.len() {
        Err(mismatch_at(p))
    } else {
        match message_spec(t, s, p) {
            Ok((q, m)) => if p < q <= s.len() {
                prefixed(seq![m], messages_spec(t, s, q))
            } else {
                Err(mismatch_at(p))
            },
            Err(e) => if e.kind == ErrorKind::Fatal {
                Err(e)
            } else {
                Ok((p, Seq::empty()))
            },
        }
    }
}

/// `message_chain := message+ terminator?`
pub open spec fn chain_spec(t: Seq<OpV>, s: Seq<char>, p: int) -> Outcome<Chain>
    decreases s.len() - p, 3int,
{
    if p < 0 || p > s.len() {
        Err(mismatch_at(p))
    } else {
        match messages_spec(t, s, p) {
            Ok((q, ms)) => if ms.len() == 0 {
                Err(mismatch_at(p))
            } else {
                match terminator_end(s, q) {
                    Some(r) => Ok((r, ms)),
                    None => Ok((q, ms)),
                }
            },
            Err(e) => Err(e),
        }
    }
}

/// `message_chain*`
pub open spec fn chain_list_spec(t: Seq<OpV>, s: Seq<char>, p: int) -> Outcome<Arg>
    decreases s.len() - p, 4int,
{
    if p < 0 || p > s.len() {
        Err(mismatch_at(p))
    } else {
        match chain_spec(t, s, p) {
            Ok((q, c)) => if p < q <= s.len() {
                prefixed(seq![c], chain_list_spec(t, s, q))
            } else {
                Err(mismatch_at(p))
            },
            Err(e) => if e.kind == ErrorKind::Fatal {
                Err(e)
            } else {
                Ok((p, Seq::empty()))
            },
        }
    }
}

/// `argument := wcpad* message_chain+ wcpad*`
pub open spec fn argument_spec(t: Seq<OpV>, s: Seq<char>, p: int) -> Outcome<Arg>
    decreases s.len() - p, 5int,
{
    if p < 0 || p > s.len() {
        Err(mismatch_at(p))
    } else {
        let p1 = skip_wcpad(s, p);
        if p <= p1 <= s.len() {
            match chain_list_spec(t, s, p1) {
                Ok((q, cs)) => if cs.len() == 0 {
                    Err(mismatch_at(p))
                } else {
                    Ok((skip_wcpad(s, q), cs))
                },
                Err(e) => Err(e),
            }
        } else {
            Err(mismatch_at(p))
        }
    }
}

/// `(',' argument)*`, stopping before a comma that no argument follows.
pub open spec fn arg_rest_spec(t: Seq<OpV>, s: Seq<char>, p: int) -> Outcome<Seq<Arg>>
    decreases s.len() - p, 6int,
{
    if p < 0 || p > s.len() {
        Err(mismatch_at(p))
    } else if char_at(s, p, ',') {
        match argument_spec(t, s, p + 1) {
            Ok((q, a)) => if p < q <= s.len() {
                prefixed(seq![a], arg_rest_spec(t, s, q))
            } else {
                Err(mismatch_at(p))
            },
            Err(e) => if e.kind == ErrorKind::Fatal {
                Err(e)
            } else {
                Ok((p, Seq::empty()))
            },
        }
    } else {
        Ok((p, Seq::empty()))
    }
}

/// `arg_list := argument (',' argument)*`, or nothing.
pub open spec fn arg_list_spec(t: Seq<OpV>, s: Seq<char>, p: int) -> Outcome<Seq<Arg>>
    decreases s.len() - p, 7int,
{
    if p < 0 || p > s.len() {
        Err(mismatch_at(p))
    } else {
        match argument_spec(t, s, p) {
            Ok((q, a)) => if p < q <= s.len() {
                prefixed(seq![a], arg_rest_spec(t, s, q))
            } else {
                Err(mismatch_at(p))
            },
            Err(e) => if e.kind == ErrorKind::Fatal {
                Err(e)
            } else {
                Ok((p, Seq::empty()))
            },
        }
    }
}

/// The bracket that closes `open`.
pub open spec fn closing(open: char) -> char {
    if open == '(' {
        ')'
    } else if open == '[' {
        ']'
    } else {
        '}'
    }
}

/// The end of an argument list opened at `p` whose arguments end at `q`:
/// just after the closing bracket, which in round brackets may follow a
/// trailing comma and padding.
pub open spec fn bracket_close(s: Seq<char>, p: int, q: int) -> Option<int> {
    let q1 = if s[p] == '(' && char_at(s, q, ',') {
        skip_wcpad(s, q + 1)
    } else {
        q
    };
    if char_at(s, q1, closing(s[p])) {
        Some(q1 + 1)
    } else {
        None
    }
}

/// `arguments`: an argument list in round, square or curly brackets; a
/// trailing comma only in round ones.
pub open spec fn arguments_spec(t: Seq<OpV>, s: Seq<char>, p: int) -> Outcome<Seq<Arg>>
    decreases s.len() - p, 8int,
{
    if p < 0 || p >= s.len() {
        Err(mismatch_at(p))
    } else if s[p] == '(' || s[p] == '[' || s[p] == '{' {
        match arg_list_spec(t, s, p + 1) {
            Ok((q, args)) => match bracket_close(s, p, q) {
                Some(r) => Ok((r, args)),
                None => Err(mismatch_at(p)),
            },
            Err(e) => if e.kind == ErrorKind::Fatal {
                Err(e)
            } else {
                Err(mismatch_at(p))
            },
        }
    } else {
        Err(mismatch_at(p))
    }
}

/// `(message_chain wcpad*)*`
pub open spec fn chains_spec(t: Seq<OpV>, s: Seq<char>, p: int) -> Outcome<Arg>
    decreases s.len() - p,
{
    if p < 0 || p > s.len() {
        Err(mismatch_at(p))
    } else {
        match chain_spec(t, s, p) {
            Ok((q, c)) => {
                let q1 = skip_wcpad(s, q);
                if p < q1 <= s.len() {
                    prefixed(seq![c], chains_spec(t, s, q1))
                } else {
                    Err(mismatch_at(p))
                }
            },
            Err(e) => if e.kind == ErrorKind::Fatal {
                Err(e)
            } else {
                Ok((p, Seq::empty()))
            },
        }
    }
}

/// The chains of a whole program, in surface order; input left over after
/// the last chain is a failure at its first character.
pub open spec fn program_spec(t: Seq<OpV>, s: Seq<char>) -> Result<Seq<Chain>, ParseError> {
    match chains_spec(t, s, skip_wcpad(s, 0)) {
        Ok((q, cs)) => if q == s.len() {
            Ok(cs)
        } else {
            Err(fatal_at(q))
        },
        Err(e) => Err(e),
    }
}

/// The parsed program, each chain restructured by operator precedence.
pub open spec fn parse_spec(t: Seq<OpV>, s: Seq<char>) -> Result<Seq<Chain>, ParseError> {
    match program_spec(t, s) {
        Ok(cs) => Ok(cs.map_values(|c: Chain| restructure(c))),
        Err(e) => Err(e),
    }
}

/// Parses one message at `p`.
pub fn message(t: &OperatorTable, s: &Vec<char>, p: usize) -> (r: Result<(usize, Message), ParseError>)
    requires
        p <= s.len(),
    ensures
        match r {
            Ok((q, m)) => ok_at(message_spec(t@, s@, p as int), q, m@) && p < q <= s.len(),
            Err(e) => err_is(message_spec(t@, s@, p as int), e),
        },
    decreases s.len() - p, 1int,
{
    let p1 = skip_scpads(s, p);
    match symbol(t, s, p1) {
        Err(e) => {
            if e.kind == ErrorKind::Fatal {
                Err(e)
            } else {
                Err(mismatch(p))
            }
        },
        Ok((q, sym)) => {
            let q1 = match scpad(s, q) {
                Some(r) => r,
                None => q,
            };
            match arguments(t, s, q1) {
                Ok((r, args)) => Ok((r, Message::new(sym, args))),
                Err(e) => {
                    if e.kind == ErrorKind::Fatal {
                        Err(e)
                    } else {
                        Ok((q1, Message::new(sym, Vec::new())))
                    }
                },
            }
        },
    }
}

/// Parses as many messages as follow `p`.
fn messages(t: &OperatorTable, s: &Vec<char>, p: usize) -> (r: Result<(usize, Vec<Message>), ParseError>)
    requires
        p <= s.len(),
    ensures
        match r {
            Ok((q, ms)) => ok_at(messages_spec(t@, s@, p as int), q, messages_v(ms@)) && p <= q <= s.len() && (ms@.len() > 0 ==> p < q),
            Err(e) => err_is(messages_spec(t@, s@, p as int), e),
        },
    decreases s.len() - p, 2int,
{
    let mut out: Vec<Message> = Vec::new();
    let mut j = p;
    assert(messages_v(out@) =~= Seq::<MessageV>::empty());
    assert(prefixed(Seq::<MessageV>::empty(), messages_spec(t@, s@, p as int)) == messages_spec(t@, s@, p as int)) by {
        if let Ok((q, vs)) = messages_spec(t@, s@, p as int) {
            assert(Seq::<MessageV>::empty() + vs =~= vs);
        }
    }
    loop
        invariant
            p <= j <= s.len(),
            out@.len() > 0 ==> p < j,
            prefixed(messages_v(out@), messages_spec(t@, s@, j as int)) == messages_spec(t@, s@, p as int),
        decreases s.len() - j,
    {
        match message(t, s, j) {
            Ok((q, m)) => {
                proof {
                    lemma_prefixed(messages_v(out@), m@, messages_spec(t@, s@, q as int));
                    lemma_messages_v_push(out@, m);
                }
                out.push(m);
                j = q;
            },
            Err(e) => {
                if e.kind == ErrorKind::Fatal {
                    return Err(e);
                }
                proof {
                    lemma_prefixed_empty(messages_v(out@), j as int);
                }
                return Ok((j, out));
            },
        }
    }
}

/// Parses a message chain at `p`: one or more messages and an optional
/// terminator.
pub fn message_chain(t: &OperatorTable, s: &Vec<char>, p: usize) -> (r: Result<(usize, MessageChain), ParseError>)
    requires
        p <= s.len(),
    ensures
        match r {
            Ok((q, c)) => ok_at(chain_spec(t@, s@, p as int), q, c@) && p < q <= s.len(),
            Err(e) => err_is(chain_spec(t@, s@, p as int), e),
        },
    decreases s.len() - p, 3int,
{
    match messages(t, s, p) {
        Ok((q, ms)) => {
            if ms.len() == 0 {
                Err(mismatch(p))
            } else {
                let r = match terminator(s, q) {
                    Some(r) => r,
                    None => q,
                };
                Ok((r, MessageChain::new(ms)))
            }
        },
        Err(e) => Err(e),
    }
}

/// Parses as many message chains as follow `p`.
fn chain_list(t: &OperatorTable, s: &Vec<char>, p: usize) -> (r: Result<(usize, Vec<MessageChain>), ParseError>)
    requires
        p <= s.len(),
    ensures
        match r {
            Ok((q, cs)) => ok_at(chain_list_spec(t@, s@, p as int), q, chains_v(cs@)) && p <= q <= s.len() && (cs@.len() > 0 ==> p < q),
            Err(e) => err_is(chain_list_spec(t@, s@, p as int), e),
        },
    decreases s.len() - p, 4int,
{
    let mut out: Vec<MessageChain> = Vec::new();
    let mut j = p;
    assert(chains_v(out@) =~= Seq::<Chain>::empty());
    assert(prefixed(Seq::<Chain>::empty(), chain_list_spec(t@, s@, p as int)) == chain_list_spec(t@, s@, p as int)) by {
        if let Ok((q, vs)) = chain_list_spec(t@, s@, p as int) {
            assert(Seq::<Chain>::empty() + vs =~= vs);
        }
    }
    loop
        invariant
            p <= j <= s.len(),
            out@.len() > 0 ==> p < j,
            prefixed(chains_v(out@), chain_list_spec(t@, s@, j as int)) == chain_list_spec(t@, s@, p as int),
        decreases s.len() - j,
    {
        match message_chain(t, s, j) {
            Ok((q, c)) => {
                proof {
                    lemma_prefixed(chains_v(out@), c@, chain_list_spec(t@, s@, q as int));
                    lemma_chains_v_push(out@, c);
                }
                out.push(c);
                j = q;
            },
            Err(e) => {
                if e.kind == ErrorKind::Fatal {
                    return Err(e);
                }
                proof {
                    lemma_prefixed_empty(chains_v(out@), j as int);
                }
                return Ok((j, out));
            },
        }
    }
}

/// Parses one argument at `p`: one or more chains, with padding around.
pub fn argument(t: &OperatorTable, s: &Vec<char>, p: usize) -> (r: Result<(usize, Argument), ParseError>)
    requires
        p <= s.len(),
    ensures
        match r {
            Ok((q, a)) => ok_at(argument_spec(t@, s@, p as int), q, a@) && p < q <= s.len(),
            Err(e) => err_is(argument_spec(t@, s@, p as int), e),
        },
    decreases s.len() - p, 5int,
{
    let p1 = skip_wcpads(s, p);
    match chain_list(t, s, p1) {
        Ok((q, cs)) => {
            proof {
                lemma_chains_v(cs@);
            }
            if cs.len() == 0 {
                Err(mismatch(p))
            } else {
                Ok((skip_wcpads(s, q), Argument::new(cs)))
            }
        },
        Err(e) => Err(e),
    }
}

/// Parses a comma-separated list of arguments at `p`, possibly empty.
fn arg_list(t: &OperatorTable, s: &Vec<char>, p: usize) -> (r: Result<(usize, Vec<Argument>), ParseError>)
    requires
        p <= s.len(),
    ensures
        match r {
            Ok((q, args)) => ok_at(arg_list_spec(t@, s@, p as int), q, arguments_v(args@)) && p <= q <= s.len(),
            Err(e) => err_is(arg_list_spec(t@, s@, p as int), e),
        },
    decreases s.len() - p, 7int,
{
    let mut out: Vec<Argument> = Vec::new();
    assert(arguments_v(out@) =~= Seq::<Arg>::empty());
    let first = argument(t, s, p);
    let mut j = match first {
        Ok((q, a)) => {
            proof {
                lemma_prefixed(arguments_v(out@), a@, arg_rest_spec(t@, s@, q as int));
                lemma_arguments_v_push(out@, a);
                assert(Seq::<Arg>::empty().push(a@) =~= seq![a@]);
            }
            out.push(a);
            q
        },
        Err(e) => {
            if e.kind == ErrorKind::Fatal {
                return Err(e);
            }
            return Ok((p, out));
        },
    };
    loop
        invariant
            p < j <= s.len(),
            prefixed(arguments_v(out@), arg_rest_spec(t@, s@, j as int)) == arg_list_spec(t@, s@, p as int),
        decreases s.len() - j,
    {
        if !has_char(s, j, ',') {
            proof {
                lemma_prefixed_empty(arguments_v(out@), j as int);
            }
            return Ok((j, out));
        }
        match argument(t, s, j + 1) {
            Ok((q, a)) => {
                proof {
                    lemma_prefixed(arguments_v(out@), a@, arg_rest_spec(t@, s@, q as int));
                    lemma_arguments_v_push(out@, a);
                }
                out.push(a);
                j = q;
            },
            Err(e) => {
                if e.kind == ErrorKind::Fatal {
                    return Err(e);
                }
                proof {
                    lemma_prefixed_empty(arguments_v(out@), j as int);
                }
                return Ok((j, out));
            },
        }
    }
}

/// Parses a bracketed argument list at `p`.
pub fn arguments(t: &OperatorTable, s: &Vec<char>, p: usize) -> (r: Result<(usize, Vec<Argument>), ParseError>)
    requires
        p <= s.len(),
    ensures
        match r {
            Ok((q, args)) => ok_at(arguments_spec(t@, s@, p as int), q, arguments_v(args@)) && p < q <= s.len(),
            Err(e) => err_is(arguments_spec(t@, s@, p as int), e),
        },
    decreases s.len() - p, 8int,
{
    if p >= s.len() {
        return Err(mismatch(p));
    }
    let open = s[p];
    if !(open == '(' || open == '[' || open == '{') {
        return Err(mismatch(p));
    }
    let close = if open == '(' {
        ')'
    } else if open == '[' {
        ']'
    } else {
        '}'
    };
    match arg_list(t, s, p + 1) {
        Ok((q, args)) => {
            let q1 = if open == '(' && has_char(s, q, ',') {
                skip_wcpads(s, q + 1)
            } else {
                q
            };
            if has_char(s, q1, close) {
                Ok((q1 + 1, args))
            } else {
                Err(mismatch(p))
            }
        },
        Err(e) => {
            if e.kind == ErrorKind::Fatal {
                Err(e)
            } else {
                Err(mismatch(p))
            }
        },
    }
}

/// Parses chains, each followed by padding, as long as they follow `p`.
fn chains(t: &OperatorTable, s: &Vec<char>, p: usize) -> (r: Result<(usize, Vec<MessageChain>), ParseError>)
    requires
        p <= s.len(),
    ensures
        match r {
            Ok((q, cs)) => ok_at(chains_spec(t@, s@, p as int), q, chains_v(cs@)) && p <= q <= s.len(),
            Err(e) => err_is(chains_spec(t@, s@, p as int), e) && e.kind == ErrorKind::Fatal,
        },
{
    let mut out: Vec<MessageChain> = Vec::new();
    let mut j = p;
    assert(chains_v(out@) =~= Seq::<Chain>::empty());
    assert(prefixed(Seq::<Chain>::empty(), chains_spec(t@, s@, p as int)) == chains_spec(t@, s@, p as int)) by {
        if let Ok((q, vs)) = chains_spec(t@, s@, p as int) {
            assert(Seq::<Chain>::empty() + vs =~= vs);
        }
    }
    loop
        invariant
            p <= j <= s.len(),
            prefixed(chains_v(out@), chains_spec(t@, s@, j as int)) == chains_spec(t@, s@, p as int),
        decreases s.len() - j,
    {
        match message_chain(t, s, j) {
            Ok((q, c)) => {
                let q1 = skip_wcpads(s, q);
                proof {
                    lemma_prefixed(chains_v(out@), c@, chains_spec(t@, s@, q1 as int));
                    lemma_chains_v_push(out@, c);
                }
                out.push(c);
                j = q1;
            },
            Err(e) => {
                if e.kind == ErrorKind::Fatal {
                    return Err(e);
                }
                proof {
                    lemma_prefixed_empty(chains_v(out@), j as int);
                }
                return Ok((j, out));
            },
        }
    }
}

/// Parses the chains of a whole program, in surface order: operators stand
/// where they were written, not yet restructured. Every failure it reports
/// is a fatal one.
pub fn program(input: &str, t: &OperatorTable) -> (r: Result<Vec<MessageChain>, ParseError>)
    ensures
        match r {
            Ok(cs) => program_spec(t@, input@) == Ok::<Seq<Chain>, ParseError>(chains_v(cs@)),
            Err(e) => program_spec(t@, input@) == Err::<Seq<Chain>, ParseError>(e) && e.kind == ErrorKind::Fatal,
        },
{
    let s = chars_of(input);
    let p0 = skip_wcpads(&s, 0);
    match chains(t, &s, p0) {
        Ok((q, cs)) => {
            if q == s.len() {
                Ok(cs)
            } else {
                Err(fatal(q))
            }
        },
        Err(e) => Err(e),
    }
}

} // verus!

verus! {

/// Restructures each chain, keeping their order.
pub fn sort_chains(chains: Vec<MessageChain>) -> (r: Vec<MessageChain>)
    ensures
        chains_v(r@) == chains_v(chains@).map_values(|c: Chain| restructure(c)),
{
    let ghost orig = chains@;
    let n = chains.len();
    let mut chains = chains;
    let mut rev: Vec<MessageChain> = Vec::new();
    while chains.len() > 0
        invariant
            chains@.len() + rev@.len() == n == orig.len(),
            chains@ == orig.subrange(0, chains@.len() as int),
            forall|i: int| 0 <= i < rev@.len() ==> (#[trigger] rev@[i])@ == restructure(orig[n - 1 - i]@),
        decreases chains.len(),
    {
        let c = chains.pop().unwrap();
        rev.push(c.sort());
    }
    let mut out: Vec<MessageChain> = Vec::new();
    while rev.len() > 0
        invariant
            out@.len() + rev@.len() == n == orig.len(),
            forall|i: int| 0 <= i < rev@.len() ==> (#[trigger] rev@[i])@ == restructure(orig[n - 1 - i]@),
            forall|i: int| 0 <= i < out@.len() ==> (#[trigger] out@[i])@ == restructure(orig[i]@),
        decreases rev.len(),
    {
        let c = rev.pop().unwrap();
        out.push(c);
    }
    proof {
        lemma_chains_v(out@);
        lemma_chains_v(orig);
        assert(chains_v(out@) =~= chains_v(orig).map_values(|c: Chain| restructure(c)));
    }
    out
}

/// Parser entry point: the program's chains, each restructured by operator
/// precedence, and the input left over, which on success is empty. A
/// failure is always a fatal one, at the position where parsing stopped.
pub fn parse(input: &str, table: &OperatorTable) -> (r: Result<(String, Vec<MessageChain>), ParseError>)
    ensures
        match r {
            Ok((rest, cs)) => rest@ == Seq::<char>::empty() && parse_spec(table@, input@) == Ok::<Seq<Chain>, ParseError>(chains_v(cs@)),
            Err(e) => parse_spec(table@, input@) == Err::<Seq<Chain>, ParseError>(e) && e.kind == ErrorKind::Fatal,
        },
{
    match program(input, table) {
        Ok(cs) => Ok((String::new(), sort_chains(cs))),
        Err(e) => Err(e),
    }
}

} // verus!

verus! {

/// At the end of the input no message starts, and lists of messages or
/// chains are empty there.
proof fn lemma_nothing_at_end(t: Seq<OpV>, s: Seq<char>)
    requires
        table_wf(t),
    ensures
        messages_spec(t, s, s.len() as int) == Ok::<(int, Chain), ParseError>((s.len() as int, Seq::empty())),
        chains_spec(t, s, s.len() as int) == Ok::<(int, Arg), ParseError>((s.len() as int, Seq::empty())),
        skip_wcpad(s, s.len() as int) == s.len(),
{
    let n = s.len() as int;
    assert(skip_scpad(s, n) == n);
    crate::operator::lemma_first_match(t, s, n, 0);
    if let Some(k) = first_match(t, s, n, 0) {
        assert(t[k].0.len() > 0);
    }
    assert(op_token_spec(t, s, n) is None);
    assert(symbol_spec(t, s, n) == Err::<(int, SymbolV), ParseError>(mismatch_at(n)));
    assert(message_spec(t, s, n) == Err::<(int, MessageV), ParseError>(mismatch_at(n)));
    assert(chain_spec(t, s, n) == Err::<(int, Chain), ParseError>(mismatch_at(n)));
}

/// Input made of whitespace and comments alone holds no chain.
pub proof fn lemma_blank_program(t: Seq<OpV>, s: Seq<char>)
    requires
        table_wf(t),
        skip_wcpad(s, 0) == s.len(),
    ensures
        parse_spec(t, s) == Ok::<Seq<Chain>, ParseError>(Seq::empty()),
{
    lemma_nothing_at_end(t, s);
    assert(Seq::<Chain>::empty().map_values(|c: Chain| restructure(c)) =~= Seq::<Chain>::empty());
}

/// Empty input is the empty program.
pub proof fn lemma_empty_program(t: Seq<OpV>)
    requires
        table_wf(t),
    ensures
        parse_spec(t, Seq::empty()) == Ok::<Seq<Chain>, ParseError>(Seq::empty()),
{
    lemma_blank_program(t, Seq::empty());
}

/// A character that may begin an identifier read as such: a letter, an
/// underscore, or any character outside ASCII.
pub open spec fn starts_identifier(c: char) -> bool {
    c == '_' || ('a' <= c && c <= 'z') || ('A' <= c && c <= 'Z') || c > '\x7f'
}

proof fn lemma_skip_ident_all(s: Seq<char>, p: int)
    requires
        0 <= p <= s.len(),
        forall|i: int| 0 <= i < s.len() ==> is_ident_char(#[trigger] s[i]),
    ensures
        skip_ident(s, p) == s.len(),
    decreases s.len() - p,
{
    if p < s.len() {
        lemma_skip_ident_all(s, p + 1);
    }
}

proof fn lemma_identifier_symbol(t: Seq<OpV>, x: Seq<char>)
    requires
        table_wf(t),
        x.len() > 0,
        forall|i: int| 0 <= i < x.len() ==> is_ident_char(#[trigger] x[i]),
        starts_identifier(x[0]),
        forall|j: int| 0 <= j < t.len() ==> !prefix_at(x, 0, (#[trigger] t[j]).0),
    ensures
        skip_scpad(x, 0) == 0,
        skip_wcpad(x, 0) == 0,
        symbol_spec(t, x, 0) == Ok::<(int, SymbolV), ParseError>((x.len() as int, SymbolV::Identifier(x))),
{
    let n = x.len() as int;
    lemma_skip_ident_all(x, 0);
    assert(x.subrange(0, n) =~= x);
    crate::operator::lemma_first_match(t, x, 0, 0);
    assert(op_token_spec(t, x, 0) is None);
    assert(crate::number::skip_digits(x, 0) == 0);
    assert(crate::number::number_spec(x, 0) is None);
}

proof fn lemma_identifier_message(t: Seq<OpV>, x: Seq<char>)
    requires
        table_wf(t),
        x.len() > 0,
        skip_scpad(x, 0) == 0,
        symbol_spec(t, x, 0) == Ok::<(int, SymbolV), ParseError>((x.len() as int, SymbolV::Identifier(x))),
    ensures
        message_spec(t, x, 0) == Ok::<(int, MessageV), ParseError>(
            (x.len() as int, MessageV { symbol: SymbolV::Identifier(x), args: Seq::empty() }),
        ),
{
    let n = x.len() as int;
    assert(arguments_spec(t, x, n) == Err::<(int, Seq<Arg>), ParseError>(mismatch_at(n)));
}

proof fn lemma_identifier_chains(t: Seq<OpV>, x: Seq<char>, m: MessageV)
    requires
        table_wf(t),
        x.len() > 0,
        skip_wcpad(x, 0) == 0,
        message_spec(t, x, 0) == Ok::<(int, MessageV), ParseError>((x.len() as int, m)),
    ensures
        program_spec(t, x) == Ok::<Seq<Chain>, ParseError>(seq![seq![m]]),
{
    let n = x.len() as int;
    lemma_nothing_at_end(t, x);
    assert(seq![m] + Seq::<MessageV>::empty() =~= seq![m]);
    assert(messages_spec(t, x, 0) == Ok::<(int, Chain), ParseError>((n, seq![m])));
    assert(crate::text::skip_separators(x, n) == n);
    assert(chain_spec(t, x, 0) == Ok::<(int, Chain), ParseError>((n, seq![m])));
    assert(seq![seq![m]] + Seq::<Chain>::empty() =~= seq![seq![m]]);
    assert(chains_spec(t, x, 0) == Ok::<(int, Arg), ParseError>((n, seq![seq![m]])));
}

proof fn lemma_single_plain_message(m: MessageV)
    requires
        !(m.symbol is Operator),
    ensures
        restructure(seq![m]) == seq![m],
{
    let d = desugar_from((Seq::empty(), None), seq![m]);
    assert(seq![m].drop_first() =~= Seq::<MessageV>::empty());
    assert(Seq::<MessageV>::empty().push(m) =~= seq![m]);
    assert(seq![m][0] == m);
    assert(crate::restructure::desugar_step((Seq::empty(), None), m) == (seq![m], None::<MessageV>));
    assert(desugar_from((seq![m], None::<MessageV>), Seq::empty()) == (seq![m], None::<MessageV>));
    assert(d == (seq![m], None::<MessageV>));
    assert(crate::restructure::desugar(seq![m]) == seq![m]);
    assert(crate::restructure::sort_step((Seq::empty(), Seq::empty()), m) == (seq![m], Seq::<MessageV>::empty()));
    assert(sort_from((seq![m], Seq::<MessageV>::empty()), Seq::empty()) == (seq![m], Seq::<MessageV>::empty()));
    assert(sort_from((Seq::empty(), Seq::empty()), seq![m]) == (seq![m], Seq::<MessageV>::empty()));
    assert(seq![m] + Seq::<MessageV>::empty() =~= seq![m]);
}

/// An identifier that does not begin with a digit, and at whose start no
/// operator of the table is written, parses to one chain of one message:
/// that identifier, with no arguments.
pub proof fn lemma_identifier_round_trip(t: Seq<OpV>, x: Seq<char>)
    requires
        table_wf(t),
        x.len() > 0,
        forall|i: int| 0 <= i < x.len() ==> is_ident_char(#[trigger] x[i]),
        !crate::number::is_digit(x[0]),
        forall|j: int| 0 <= j < t.len() ==> !prefix_at(x, 0, (#[trigger] t[j]).0),
    ensures
        parse_spec(t, x) == Ok::<Seq<Chain>, ParseError>(
            seq![seq![MessageV { symbol: SymbolV::Identifier(x), args: Seq::empty() }]],
        ),
{
    let m = MessageV { symbol: SymbolV::Identifier(x), args: Seq::empty() };
    assert(is_ident_char(x[0]));
    assert(starts_identifier(x[0]));
    lemma_identifier_symbol(t, x);
    lemma_identifier_message(t, x);
    lemma_identifier_chains(t, x, m);
    lemma_single_plain_message(m);
    assert(seq![seq![m]].map_values(|c: Chain| restructure(c)) =~= seq![seq![m]]);
}

/// A trailing comma closes a round argument list, and no square or curly
/// one.
pub proof fn lemma_trailing_comma(t: Seq<OpV>, s: Seq<char>, p: int, q: int, args: Seq<Arg>)
    requires
        0 <= p < s.len(),
        arg_list_spec(t, s, p + 1) == Ok::<(int, Seq<Arg>), ParseError>((q, args)),
        char_at(s, q, ','),
    ensures
        s[p] == '(' && char_at(s, skip_wcpad(s, q + 1), ')') ==> arguments_spec(t, s, p) == Ok::<
            (int, Seq<Arg>),
            ParseError,
        >((skip_wcpad(s, q + 1) + 1, args)),
        s[p] == '[' || s[p] == '{' ==> arguments_spec(t, s, p) == Err::<(int, Seq<Arg>), ParseError>(
            mismatch_at(p),
        ),
{
}

} // verus!
