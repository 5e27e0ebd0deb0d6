use iowa_parser::parser::{parse, program};
use iowa_parser::{
    Argument, Decimal, ErrorKind, Identifier, Message, MessageChain, Number, Operator,
    OperatorTable, ParseError, Symbol,
};

fn id(name: &str) -> Symbol {
    Symbol::Identifier(Identifier::new(name))
}

fn num(v: f64) -> Symbol {
    Symbol::Number(Number::Decimal(Decimal::new(&v.to_string())))
}

fn msg(symbol: Symbol) -> Message {
    Message::new(symbol, vec![])
}

fn chains(s: &str) -> Vec<MessageChain> {
    let table = OperatorTable::default();
    let (rest, cs) = parse(s, &table).unwrap();
    assert_eq!(rest, "");
    cs
}

fn parse_err(s: &str) -> ParseError {
    parse(s, &OperatorTable::default()).unwrap_err()
}

#[test]
fn single_identifier() {
    assert_eq!(chains("foo"), vec![MessageChain::new(vec![msg(id("foo"))])]);
    assert_eq!(chains("_тест"), vec![MessageChain::new(vec![msg(id("_тест"))])]);
}

#[test]
fn call_with_two_arguments() {
    let cs = chains("foo(1, bar baz)");
    let expected = Message::new(
        id("foo"),
        vec![
            Argument::new(vec![MessageChain::new(vec![msg(num(1.0))])]),
            Argument::new(vec![MessageChain::new(vec![msg(id("bar")), msg(id("baz"))])]),
        ],
    );
    assert_eq!(cs, vec![MessageChain::new(vec![expected])]);
}

#[test]
fn chain_of_three_calls() {
    let cs = chains("foo() bar(1) baz;");
    assert_eq!(cs.len(), 1);
    let c = &cs[0];
    assert_eq!(c.len(), 3);
    assert_eq!(c.get(0), &msg(id("foo")));
    assert_eq!(
        c.get(1),
        &Message::new(id("bar"), vec![Argument::new(vec![MessageChain::new(vec![msg(num(1.0))])])])
    );
    assert_eq!(c.get(2), &msg(id("baz")));
}

#[test]
fn precedence_climbing() {
    assert_eq!(chains("1 + 2 * 3 + 4 >> 5"), chains("1 +(2 *(3)) +(4) >>(5)"));
    assert_eq!(
        chains("1 >> 2 bar + 3 * baz qux + 4 >> 5"),
        chains("1 >>(2 bar +(3 *(baz qux)) +(4)) >>(5)")
    );
}

#[test]
fn ackermann_one_line() {
    let cs = chains(
        "ack := method(m, n, if (m < 1, return n + 1); if (n < 1, return ack(m - 1, 1)); return ack(m - 1, ack(m, n - 1)))",
    );
    assert_eq!(cs.len(), 1);
    let c = &cs[0];
    assert_eq!(c.len(), 2);
    assert_eq!(c.get(0), &msg(id("ack")));
    let assign = c.get(1);
    match &assign.symbol {
        Symbol::Operator(o) => assert_eq!(o.symbol(), ":="),
        other => panic!("expected an operator, found {:?}", other),
    }
    assert_eq!(assign.args.len(), 1);
    let arg = &assign.args[0];
    assert_eq!(arg.len(), 1);
    let inner = arg.get(0);
    assert_eq!(inner.len(), 1);
    let method = inner.get(0);
    assert_eq!(method.symbol, id("method"));
    assert_eq!(method.args.len(), 3);
    assert_eq!(method.args[2].len(), 3);
}

#[test]
fn empty_input() {
    assert_eq!(chains(""), vec![]);
}

#[test]
fn blank_lines_and_comments() {
    assert_eq!(chains("  # only a comment\n\t/* and a block */ \n"), vec![]);
    assert_eq!(
        chains("foo\n   // note\n\nbar"),
        vec![MessageChain::new(vec![msg(id("foo"))]), MessageChain::new(vec![msg(id("bar"))])]
    );
}

#[test]
fn trailing_comma() {
    assert_eq!(chains("foo(1,)"), chains("foo(1)"));
    assert_eq!(chains("foo(1, \n)"), chains("foo(1)"));
    assert_eq!(parse_err("foo[1,]").kind, ErrorKind::Fatal);
    assert_eq!(parse_err("foo{1,}").kind, ErrorKind::Fatal);
}

#[test]
fn comments_between_tokens() {
    assert_eq!(chains("foo bar"), chains("foo /* c */ bar"));
    assert_eq!(chains("foo(1, 2)"), chains("foo(1, /* c */ 2)"));
    assert_eq!(chains("a + b"), chains("a /* c */ + b"));
    assert_eq!(chains("x\ny"), chains("x # c\ny"));
}

#[test]
fn restructuring_twice_changes_nothing() {
    let table = OperatorTable::default();
    for s in ["1 + 2 * 3 + 4 >> 5", "a := b c + d ** e - f", "x return y + 1 < 2 or z", "p q"] {
        for c in program(s, &table).unwrap() {
            let once = c.sort();
            let twice = chains_identity(&once);
            assert_eq!(once, twice);
        }
    }
}

/// Restructures a copy of `c`, rebuilt from its parts.
fn chains_identity(c: &MessageChain) -> MessageChain {
    rebuild(c).sort()
}

fn rebuild(c: &MessageChain) -> MessageChain {
    MessageChain::new(c.as_slice().iter().map(rebuild_message).collect())
}

fn rebuild_message(m: &Message) -> Message {
    Message::new(
        m.symbol.clone(),
        m.args
            .iter()
            .map(|a| Argument::new(a.as_slice().iter().map(rebuild).collect()))
            .collect(),
    )
}

#[test]
fn longest_operator_wins() {
    let table = OperatorTable::default();
    let v: Vec<char> = "::= x".chars().collect();
    let (q, op) = table.op_token(&v, 0).unwrap();
    assert_eq!((q, op.symbol()), (3, "::="));
    let v: Vec<char> = "<<=".chars().collect();
    assert_eq!(table.op_token(&v, 0).unwrap().1.symbol(), "<<=");
    let v: Vec<char> = "<<1".chars().collect();
    assert_eq!(table.op_token(&v, 0).unwrap().1.symbol(), "<<");
    let v: Vec<char> = "abc".chars().collect();
    assert!(table.op_token(&v, 0).is_none());
}

#[test]
fn table_is_longest_first() {
    let table = OperatorTable::default();
    let ops = table.operators();
    assert_eq!(ops.len(), 39);
    for w in ops.windows(2) {
        assert!(w[0].symbol().chars().count() >= w[1].symbol().chars().count());
    }
    assert_eq!(ops[0].symbol(), "return");
    assert_eq!(table.precedence_of("return"), Some(u32::MAX));
    assert_eq!(table.precedence_of("**"), Some(1));
    assert_eq!(table.precedence_of("<>"), None);
}

#[test]
fn added_operators_are_used() {
    let mut table = OperatorTable::default();
    table.add_operator(Operator::new("<>", 5));
    assert_eq!(table.operators().len(), 40);
    table.add_operator(Operator::new("<>", 1));
    assert_eq!(table.operators().len(), 40);
    assert_eq!(table.precedence_of("<>"), Some(5));
    let v: Vec<char> = "<> b".chars().collect();
    assert_eq!(table.op_token(&v, 0).unwrap().1.symbol(), "<>");
    let (_, cs) = parse("a <> b", &table).unwrap();
    assert_eq!(cs[0].len(), 2);
    assert_eq!(cs[0].get(1).symbol, Symbol::Operator(Operator::new("<>", 5)));
}

#[test]
fn operator_equality_ignores_precedence() {
    assert_eq!(Operator::new("+", 3), Operator::new("+", 9));
    assert_ne!(Operator::new("+", 3), Operator::new("-", 3));
}

#[test]
fn trailing_input_is_an_error() {
    let e = parse_err("foo )");
    assert_eq!(e, ParseError { kind: ErrorKind::Fatal, pos: 4 });
    let e = parse_err("foo( )");
    assert_eq!(e, ParseError { kind: ErrorKind::Fatal, pos: 3 });
}

#[test]
fn hex_and_quote_symbols() {
    let cs = chains("x := 0xff \"a\\tb\"");
    assert_eq!(cs.len(), 1);
    let assign = cs[0].get(1);
    let operand = assign.args[0].get(0);
    assert_eq!(operand.get(0).symbol, Symbol::Number(Number::Hex(255)));
    match &operand.get(1).symbol {
        Symbol::Quote(q) => assert_eq!(q.text(), "a\tb"),
        other => panic!("expected a quote, found {:?}", other),
    }
}

#[test]
fn word_operators_split_identifiers() {
    let cs = chains("orange");
    assert_eq!(cs[0].len(), 1);
    match &cs[0].get(0).symbol {
        Symbol::Operator(o) => assert_eq!(o.symbol(), "or"),
        other => panic!("expected an operator, found {:?}", other),
    }
}

#[test]
fn separators_before_semicolon() {
    assert_eq!(chains("a   ;b"), chains("a\nb"));
}

#[test]
fn leading_comment_changes_nothing() {
    assert_eq!(chains("/* note */foo(1) + 2"), chains("foo(1) + 2"));
    assert_eq!(chains("# note\nfoo bar"), chains("foo bar"));
    let plain = parse_err("foo )");
    let commented = parse_err("/**/foo )");
    assert_eq!(commented.kind, plain.kind);
    assert_eq!(commented.pos, plain.pos + 4);
}

#[test]
fn symbol_equality() {
    let plus = Symbol::Operator(Operator::new("+", 3));
    assert_eq!(Symbol::Operator(Operator::new("+", 99)), plus);
    assert_ne!(Symbol::Operator(Operator::new("-", 3)), plus);
    assert_ne!(id("foo"), id("bar"));
    assert_eq!(id("foo"), id("foo"));
    assert_ne!(id("1"), num(1.0));
    assert_eq!(num(1.0), num(1.0));
    assert_ne!(
        Symbol::Number(Number::Decimal(Decimal::new("1.0"))),
        Symbol::Number(Number::Decimal(Decimal::new("1.")))
    );
    assert_eq!(Symbol::Number(Number::Hex(255)), Symbol::Number(Number::Hex(0xff)));
    assert_ne!(Symbol::Number(Number::Hex(1)), num(1.0));
    let q = Symbol::Quote(iowa_parser::Quote::new("a"));
    assert_eq!(q, Symbol::Quote(iowa_parser::Quote::new("a")));
    assert_ne!(q, Symbol::Quote(iowa_parser::Quote::new("b")));
    assert_ne!(q, id("a"));
}
