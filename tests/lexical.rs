use iowa_parser::number::{decimal_number, hex_number};
use iowa_parser::parser::parse;
use iowa_parser::quote::{mono_quote, quote, tri_quote};
use iowa_parser::symbol::{ident_end, identifier};
use iowa_parser::text::{block_comment, line_comment, scpad, separator, terminator, wcpad};
use iowa_parser::{ErrorKind, Number, OperatorTable, Quote};

fn chars(s: &str) -> Vec<char> {
    s.chars().collect()
}

/// What is left of `s` after the first `n` characters.
fn rest(s: &str, n: usize) -> String {
    s.chars().skip(n).collect()
}

fn decimal_value(s: &str) -> Option<(String, f64)> {
    let v = chars(s);
    match decimal_number(&v, 0) {
        Some((q, Number::Decimal(d))) => Some((rest(s, q), d.text().parse::<f64>().unwrap())),
        _ => None,
    }
}

#[test]
fn test_comment() {
    // a line comment stops before the line ending
    let s = "# comment\n";
    assert_eq!(line_comment(&chars(s), 0).map(|q| rest(s, q)), Some("\n".to_string()));
    let s = "// comment\n";
    assert_eq!(line_comment(&chars(s), 0).map(|q| rest(s, q)), Some("\n".to_string()));
}

#[test]
fn test_block_comment() {
    let comment = r#"/* comment
                            on
                            multiple
                            lines
                            */"#;
    assert_eq!(block_comment(&chars(comment), 0).map(|q| rest(comment, q)), Some(String::new()));
}

#[test]
fn test_parse_hex_number() {
    assert_eq!(hex_number(&chars("0x1234"), 0), Some((6, 0x1234)));
    assert_eq!(hex_number(&chars("0Xabcd"), 0), Some((6, 0xABCD)));
    assert_eq!(hex_number(&chars("0x1a2b3c4d"), 0), Some((10, 0x1A2B3C4D)));
}

#[test]
fn test_parse_decimal_number() {
    assert_eq!(decimal_value("42"), Some((String::new(), 42.0)));
    assert_eq!(decimal_value("3.1415"), Some((String::new(), 3.1415)));
    assert_eq!(decimal_value("123.456e+10"), Some((String::new(), 1234560000000.0)));
    assert_eq!(decimal_value("0.5e-3"), Some((String::new(), 0.0005)));
    assert_eq!(decimal_value("-2.5e-3"), Some((String::new(), -0.0025)));
}

#[test]
fn test_parse_separator() {
    assert_eq!(separator(&chars(" "), 0), Some(1));
    assert_eq!(separator(&chars("\t"), 0), Some(1));
    assert_eq!(separator(&chars("\x0c"), 0), Some(1));
    assert_eq!(separator(&chars("\x0b"), 0), Some(1));
}

#[test]
fn test_parse_terminator() {
    let cases = [(";", ""), (";\n", "\n"), ("; \r", " \r"), ("\r", "")];
    for (input, left) in cases {
        assert_eq!(terminator(&chars(input), 0).map(|q| rest(input, q)), Some(left.to_string()));
    }
}

#[test]
fn test_parse_scpad() {
    assert_eq!(scpad(&chars(" "), 0), Some(1));
    let s = "# comment\n";
    assert_eq!(scpad(&chars(s), 0).map(|q| rest(s, q)), Some("\n".to_string()));
}

#[test]
fn test_parse_wcpad() {
    assert_eq!(wcpad(&chars(" "), 0), Some(1));
    assert_eq!(wcpad(&chars("\n"), 0), Some(1));
    assert_eq!(wcpad(&chars("\r"), 0), Some(1));
    let s = "# comment\n";
    assert_eq!(wcpad(&chars(s), 0).map(|q| rest(s, q)), Some("\n".to_string()));
}

fn ident(s: &str) -> Option<(String, String)> {
    identifier(&chars(s), 0).map(|(q, w)| (rest(s, q), w.text().to_string()))
}

#[test]
fn test_parse_identifier() {
    for s in ["foo", "foo_bar", "foo_bar_123_", "тест", "_тест", "_"] {
        assert_eq!(ident(s), Some((String::new(), s.to_string())));
    }
}

#[test]
fn test_parse_operator() {
    let ops = [
        "?", "@", "@@", "**", "%", "*", "/", "+", "-", "<<", ">>", "<", "<=", ">", ">=", "!=",
        "==", "&", "^", "|", "&&", "and", "||", "or", "..", "=", ":=", "::=", "%=", "*=", "/=",
        "+=", "-=", "<<=", ">>=", "&=", "^=", "|=", "return",
    ];
    let table = OperatorTable::default();
    for op in ops {
        assert_eq!(table.op_token(&chars(op), 0).unwrap().1.symbol(), op);
    }
}

fn mono(s: &str) -> Result<(String, String), ErrorKind> {
    mono_quote(&chars(s), 0).map(|(q, t)| (rest(s, q), t)).map_err(|e| e.kind)
}

fn tri(s: &str) -> Option<(String, String)> {
    tri_quote(&chars(s), 0).map(|(q, t)| (rest(s, q), t))
}

fn quoted(s: &str) -> Result<(String, Quote), ErrorKind> {
    quote(&chars(s), 0).map(|(q, t)| (rest(s, q), t)).map_err(|e| e.kind)
}

#[test]
fn test_parse_mono_quote() {
    assert_eq!(mono(r#""test""#), Ok(("".to_string(), "test".to_string())));
    assert_eq!(mono(r#""\n""#), Ok(("".to_string(), "\n".to_string())));
    assert_eq!(
        mono(r#""hello, \"world\"""#),
        Ok(("".to_string(), "hello, \"world\"".to_string()))
    );
    assert_eq!(mono(r#""""#), Ok(("".to_string(), "".to_string())));
    assert_eq!(mono(r#""test"\n"#), Ok(("\\n".to_string(), "test".to_string())));
}

#[test]
fn test_parse_tri_quote() {
    assert_eq!(tri(r#""""""""#), Some(("".to_string(), String::new())));
    assert_eq!(
        tri(r#""""Hello, world!""""#),
        Some(("".to_string(), "Hello, world!".to_string()))
    );
    assert_eq!(
        tri(r#""""This is a "test" test,
    hello!""""#),
        Some(("".to_string(), "This is a \"test\" test,\n    hello!".to_string()))
    );
}

#[test]
fn test_parse_quote() {
    assert_eq!(quoted(r#""test""#), Ok(("".to_string(), Quote::new("test"))));
    assert_eq!(
        quoted(r#""hello, \"world\"""#),
        Ok(("".to_string(), Quote::new("hello, \"world\"")))
    );
    assert_eq!(quoted(r#""""""""#), Ok(("".to_string(), Quote::new(""))));
    assert_eq!(
        quoted(r#""""Hello, world!""""#),
        Ok(("".to_string(), Quote::new("Hello, world!")))
    );
}

#[test]
fn numeric_escapes_are_decoded() {
    assert_eq!(mono(r#""\x41\u00e9\U0001F600""#), Ok(("".to_string(), "Aé😀".to_string())));
    assert_eq!(mono(r#""\a\b\e\f\r\t\v\\\'\0""#), Ok(("".to_string(), "\x07\x08\x1b\x0c\r\t\x0b\\'\0".to_string())));
}

#[test]
fn malformed_escapes_are_fatal() {
    assert_eq!(mono(r#""\xZZ""#), Err(ErrorKind::Fatal));
    assert_eq!(mono(r#""\uD800""#), Err(ErrorKind::Fatal));
    assert_eq!(mono(r#""\x4""#), Err(ErrorKind::Fatal));
}

#[test]
fn quote_mismatches() {
    assert_eq!(mono("abc"), Err(ErrorKind::Mismatch));
    assert_eq!(quoted("x"), Err(ErrorKind::Mismatch));
}

#[test]
fn unterminated_quote_is_fatal() {
    assert_eq!(mono("\"abc"), Err(ErrorKind::Fatal));
    assert_eq!(mono("\"abc\\"), Err(ErrorKind::Fatal));
    let table = OperatorTable::default();
    assert_eq!(parse("foo(\"abc", &table).map_err(|e| e.kind), Err(ErrorKind::Fatal));
}

#[test]
fn newline_in_quotes() {
    let table = OperatorTable::default();
    let e = parse("x := \"a\nb\"", &table).unwrap_err();
    assert_eq!(e.kind, ErrorKind::Fatal);
    assert_eq!(e.pos, 7);
    assert_eq!(tri("\"\"\"a\nb\"\"\""), Some(("".to_string(), "a\nb".to_string())));
}

#[test]
fn hex_overflow_falls_back_to_decimal() {
    assert_eq!(hex_number(&chars("0xffffffffffffffff"), 0), Some((18, u64::MAX)));
    assert_eq!(hex_number(&chars("0x10000000000000000"), 0), None);
    assert_eq!(hex_number(&chars("0x"), 0), None);
}

#[test]
fn decimal_forms() {
    assert_eq!(decimal_value(".5e2"), Some((String::new(), 50.0)));
    assert_eq!(decimal_value("7."), Some((String::new(), 7.0)));
    assert_eq!(decimal_value("1.e5").map(|(r, v)| (r, v)), Some(("e5".to_string(), 1.0)));
    assert_eq!(decimal_value("2e"), Some(("e".to_string(), 2.0)));
    assert_eq!(decimal_value("."), None);
}

#[test]
fn identifier_runs_from_classification() {
    let s = chars("ab_c d");
    assert_eq!(ident_end(&s, 0, &vec![true, true, false, true, false]), 4);
    assert_eq!(ident_end(&s, 0, &vec![true, false]), 1);
    assert_eq!(ident_end(&s, 0, &vec![true, true, false]), 3);
    assert_eq!(ident_end(&s, 5, &vec![true]), 6);
    assert_eq!(ident_end(&s, 4, &vec![false]), 4);
}

#[test]
fn non_ascii_identifiers() {
    assert_eq!(ident("ü1 x"), Some((" x".to_string(), "ü1".to_string())));
    assert_eq!(ident("٣x"), Some(("".to_string(), "٣x".to_string())));
    assert_eq!(ident("-x"), None);
}
