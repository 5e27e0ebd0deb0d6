use iowa_parser::parser::{arguments, message, message_chain};
use iowa_parser::{
    Argument, Decimal, Identifier, Message, MessageChain, Number, OperatorTable, Symbol,
};

fn chars(s: &str) -> Vec<char> {
    s.chars().collect()
}

fn id(name: &str) -> Symbol {
    Symbol::Identifier(Identifier::new(name))
}

fn num(v: f64) -> Symbol {
    Symbol::Number(Number::Decimal(Decimal::new(&v.to_string())))
}

fn msg(symbol: Symbol) -> Message {
    Message::new(symbol, vec![])
}

fn call(symbol: Symbol, args: Vec<Vec<Vec<Message>>>) -> Message {
    Message::new(
        symbol,
        args.into_iter()
            .map(|a| Argument::new(a.into_iter().map(MessageChain::new).collect()))
            .collect(),
    )
}

/// Parses one chain of `s`, which must be consumed whole.
fn chain_of(s: &str) -> MessageChain {
    let table = OperatorTable::default();
    let v = chars(s);
    let (q, c) = message_chain(&table, &v, 0).unwrap();
    assert_eq!(q, v.len());
    c
}

#[test]
fn test_parse_arguments() {
    let input = r#"(m, n,
            // comment
            foo bar(1)
            baz(0) qux
          )"#;

    let expected: Vec<Argument> = vec![
        Argument::new(vec![MessageChain::new(vec![msg(id("m"))])]),
        Argument::new(vec![MessageChain::new(vec![msg(id("n"))])]),
        Argument::new(vec![
            MessageChain::new(vec![msg(id("foo")), call(id("bar"), vec![vec![vec![msg(num(1.0))]]])]),
            MessageChain::new(vec![call(id("baz"), vec![vec![vec![msg(num(0.0))]]]), msg(id("qux"))]),
        ]),
    ];

    let table = OperatorTable::default();
    let v = chars(input);
    assert_eq!(arguments(&table, &v, 0), Ok((v.len(), expected)));
}

#[test]
fn test_parse_message() {
    let table = OperatorTable::default();
    let v = chars("foo");
    assert_eq!(message(&table, &v, 0), Ok((3, msg(id("foo")))));

    let v = chars("foo()");
    assert_eq!(message(&table, &v, 0), Ok((5, msg(id("foo")))));

    let v = chars("foo(1, bar baz)");
    assert_eq!(
        message(&table, &v, 0),
        Ok((
            v.len(),
            call(id("foo"), vec![vec![vec![msg(num(1.0))]], vec![vec![msg(id("bar")), msg(id("baz"))]]])
        ))
    );
}

#[test]
fn test_parse_message_chain() {
    let table = OperatorTable::default();
    let expected = MessageChain::new(vec![msg(id("foo")), msg(id("bar")), msg(id("baz"))]);
    let v = chars("foo bar baz");
    assert_eq!(message_chain(&table, &v, 0), Ok((v.len(), expected)));

    let expected = MessageChain::new(vec![msg(id("foo")), msg(id("bar")), msg(id("baz"))]);
    let v = chars("foo bar baz;");
    assert_eq!(message_chain(&table, &v, 0), Ok((v.len(), expected)));

    let expected = MessageChain::new(vec![
        msg(id("foo")),
        call(id("bar"), vec![vec![vec![msg(num(1.0))]]]),
        msg(id("baz")),
    ]);
    let v = chars("foo() bar(1) baz;");
    assert_eq!(message_chain(&table, &v, 0), Ok((v.len(), expected)));
}

#[test]
fn test_desugar_operators() {
    let chain = chain_of("foo bar + baz qux * foo bar");
    let expected = chain_of("foo bar +(baz qux) *(foo bar)");
    assert_eq!(chain.desugar_operators(), expected);
}

#[test]
fn test_sort_message_chain() {
    let cases = [
        ("1 >> 2 + 3", "1 >>(2 +(3))"),
        ("1 * 2 + 3 >> 4", "1 *(2) +(3) >>(4)"),
        ("1 + 2 * 3 + 4 >> 5", "1 +(2 *(3)) +(4) >>(5)"),
        ("1 >> 2 + 3 * 4 + 5 >> 6", "1 >>(2 +(3 *(4)) +(5)) >>(6)"),
        ("1 >> 2 bar + 3 * baz qux + 4 >> 5", "1 >>(2 bar +(3 *(baz qux)) +(4)) >>(5)"),
    ];
    for (input, expected) in cases {
        assert_eq!(chain_of(input).sort(), chain_of(expected));
    }
}

#[test]
fn push_to_first_arg_makes_missing_positions() {
    let mut m = msg(id("f"));
    m.push_to_first_arg(msg(id("x")));
    m.push_to_first_arg(msg(id("y")));
    assert_eq!(m, call(id("f"), vec![vec![vec![msg(id("x")), msg(id("y"))]]]));

    let mut m = Message::new(id("g"), vec![Argument::new(vec![])]);
    m.push_to_first_arg(msg(id("z")));
    assert_eq!(m, call(id("g"), vec![vec![vec![msg(id("z"))]]]));
}

#[test]
fn bracket_forms_are_interchangeable() {
    let table = OperatorTable::default();
    let round = message(&table, &chars("f(a, b)"), 0).unwrap().1;
    let square = message(&table, &chars("f[a, b]"), 0).unwrap().1;
    let curly = message(&table, &chars("f{a, b}"), 0).unwrap().1;
    assert_eq!(round, square);
    assert_eq!(round, curly);
}

#[test]
fn newline_breaks_argument_association() {
    let table = OperatorTable::default();
    let v = chars("foo\n(1)");
    assert_eq!(message(&table, &v, 0), Ok((3, msg(id("foo")))));
}
