use strason::{Error, ErrorType, Json, JsonInner, Parser};

fn jnull() -> Json {
    Json(JsonInner::Null)
}

fn jbool(b: bool) -> Json {
    Json(JsonInner::Bool(b))
}

fn jnum(s: &str) -> Json {
    Json(JsonInner::Number(s.to_owned()))
}

fn jstr(s: &str) -> Json {
    Json(JsonInner::String(s.to_owned()))
}

fn jarr(items: Vec<Json>) -> Json {
    Json(JsonInner::Array(items))
}

fn jobj(members: Vec<(&str, Json)>) -> Json {
    let mut vec = vec![];
    for (k, v) in members {
        vec.push((k.to_owned(), v));
    }
    Json(JsonInner::Object(vec))
}

fn kind(s: &str) -> ErrorType {
    match Json::from_str(s) {
        Ok(v) => panic!("{:?} parsed to {:?}", s, v),
        Err(e) => e.error,
    }
}

fn place(s: &str) -> (usize, usize) {
    match Json::from_str(s) {
        Ok(v) => panic!("{:?} parsed to {:?}", s, v),
        Err(e) => (e.line, e.col),
    }
}

#[test]
fn test_primitives() {
    assert_eq!(Json::from_str("null").unwrap(), jnull());
    assert_eq!(Json::from_str("  true  ").unwrap(), jbool(true));
    assert_eq!(Json::from_str(" false ").unwrap(), jbool(false));

    assert_eq!(Json::from_str("\"\\n\\r\\t\\b\\f \\\\ \\/\"").unwrap(), jstr("\n\r\t\u{7}\u{c} \\ /"));
    assert_eq!(Json::from_str("\"\\\"\"").unwrap(), jstr("\""));
    assert_eq!(Json::from_str(" \"string\"").unwrap(), jstr("string"));
    assert_eq!(Json::from_str("\"i've \\\"ed this\"").unwrap(), jstr("i've \"ed this"));

    assert_eq!(Json::from_str(" 0").unwrap(), jnum("0"));
    assert_eq!(Json::from_str("-0").unwrap(), jnum("-0"));
    assert_eq!(Json::from_str("  101").unwrap(), jnum("101"));
    assert_eq!(Json::from_str("101.99").unwrap(), jnum("101.99"));
    assert_eq!(Json::from_str("-101.99  ").unwrap(), jnum("-101.99"));
    assert_eq!(Json::from_str("-10e55").unwrap(), jnum("-10e55"));
    assert_eq!(Json::from_str("-10.1e55").unwrap(), jnum("-10.1e55"));
    assert_eq!(Json::from_str("-10e+55").unwrap(), jnum("-10e+55"));
    assert_eq!(Json::from_str("-10e-55").unwrap(), jnum("-10e-55"));
    assert_eq!(Json::from_str("-1E+5").unwrap(), jnum("-1E+5"));
    assert_eq!(Json::from_str("-1E-5").unwrap(), jnum("-1E-5"));

    assert!(Json::from_str("").is_err());
    assert!(Json::from_str("gibberish").is_err());
    assert!(Json::from_str("\"\\c\"").is_err());
    assert!(Json::from_str("\"\\u\"").is_err());
    assert!(Json::from_str("\"\\").is_err());
    assert!(Json::from_str(".5").is_err());
    assert!(Json::from_str("9.5.5").is_err());
    assert!(Json::from_str("-").is_err());
    assert!(Json::from_str("+").is_err());
    assert!(Json::from_str("+1").is_err());
    assert!(Json::from_str("1e2.5").is_err());
    assert!(Json::from_str("1e2e5").is_err());
    assert!(Json::from_str("0123").is_err());
    assert!(Json::from_str("3f").is_err());
    assert!(Json::from_str("00").is_err());
    assert!(Json::from_str("2-3").is_err());
    assert!(Json::from_str("2+3").is_err());
}

#[test]
fn test_utf16() {
    assert!(Json::from_str("\"\\u123\"").is_err());
    assert!(Json::from_str("\"\\uf+ff\"").is_err());
    assert!(Json::from_str("\"").is_err());
    assert_eq!(Json::from_str(" \"\\u0020\"").unwrap(), jstr(" "));
    assert_eq!(Json::from_str(" \"\\uffff\\t\"").unwrap(), jstr("\u{ffff}\t"));
    assert_eq!(Json::from_str(" \"\\ud834\\uDD1E\"").unwrap(), jstr("\u{1d11e}"));
}

#[test]
fn test_array() {
    assert_eq!(Json::from_str("[]").unwrap(), jarr(vec![]));
    assert_eq!(Json::from_str("[\"1\"]").unwrap(), jarr(vec![jstr("1")]));
    assert_eq!(Json::from_str("[\"1\", 2]").unwrap(), jarr(vec![jstr("1"), jnum("2")]));

    assert_eq!(Json::from_str("[true, [false, 2], 3]").unwrap(),
               jarr(vec![jbool(true), jarr(vec![jbool(false), jnum("2")]), jnum("3")]));
    assert_eq!(Json::from_str("[[[[[]]]]]").unwrap(),
               jarr(vec![jarr(vec![jarr(vec![jarr(vec![jarr(vec![])])])])]));

    assert!(Json::from_str("[").is_err());
    assert!(Json::from_str("]").is_err());
    assert!(Json::from_str("[1 2]").is_err());
    assert!(Json::from_str("[,1]").is_err());
    assert!(Json::from_str("[1,]").is_err());
    assert!(Json::from_str("[,1,2]").is_err());
    assert!(Json::from_str("[1,,2]").is_err());
    assert!(Json::from_str("[1,2,]").is_err());
}

#[test]
fn test_object() {
    assert_eq!(Json::from_str("{}").unwrap(), jobj(vec![]));
    assert_eq!(Json::from_str("{\"key\": \"val\"}").unwrap(), jobj(vec![("key", jstr("val"))]));
    assert_eq!(Json::from_str("{\"key\": false}").unwrap(), jobj(vec![("key", jbool(false))]));
    assert_eq!(Json::from_str("{\"key\": []}").unwrap(), jobj(vec![("key", jarr(vec![]))]));

    assert_eq!(Json::from_str("{\"key\": 1234}").unwrap(), jobj(vec![("key", jnum("1234"))]));

    assert_eq!(Json::from_str("{\"key1\": \"val\", \"key2\": \"val\"}").unwrap(),
               jobj(vec![("key1", jstr("val")), ("key2", jstr("val"))]));
    assert_eq!(Json::from_str("{\"key\": \"val\", \"key\": \"val2\"}").unwrap(),
               jobj(vec![("key", jstr("val")), ("key", jstr("val2"))]));

    assert!(Json::from_str("{{}}").is_err());
    assert!(Json::from_str("{,}").is_err());
    assert!(Json::from_str("{:}").is_err());
    assert!(Json::from_str("{\\\"}").is_err());
    assert!(Json::from_str("{\"key\" \"val\"}").is_err());
    assert!(Json::from_str("{\"key\": \"val\" \"val2\"}").is_err());
    assert!(Json::from_str("{{\"key\": \"val\"}}").is_err());
    assert!(Json::from_str("{null: \"val\"}").is_err());
    assert!(Json::from_str("{true: \"val\"}").is_err());
    assert!(Json::from_str("{false: \"val\"}").is_err());
    assert!(Json::from_str("{[]: \"val\"}").is_err());
    assert!(Json::from_str("{10: \"val\"}").is_err());
    assert!(Json::from_str("{: \"val\"}").is_err());
    assert!(Json::from_str("{\"key\": }").is_err());
    assert!(Json::from_str("{\"key1\": , \"key2\": \"val\"}").is_err());
    assert!(Json::from_str("{\"key1\": \"val\", \"key2\":}").is_err());
    assert!(Json::from_str("{\"key1\": \"val\",, \"key2\":\"val\"}").is_err());
    assert!(Json::from_str("{,\"key1\": \"val\", \"key2\":\"val\"}").is_err());
    assert!(Json::from_str("{\"key1\": \"val\", \"key2\":\"val\",}").is_err());
}

#[test]
fn test_error() {
    if let Err(e) = Json::from_str("10+5") {
        assert_eq!(e.line, 1);
        assert_eq!(e.col, 3);
        assert_eq!(e.to_string(), "1:3: unexpected character +");
    } else {
        panic!("wrong error return type");
    }
}

#[test]
fn parser_reads_a_byte_source() {
    let mut parser = Parser::new("[1, 2]".bytes().map(Ok));
    assert_eq!(parser.parse().unwrap(), jarr(vec![jnum("1"), jnum("2")]));
}

#[test]
fn keywords_with_whitespace_around() {
    assert_eq!(Json::from_str("\n\r null\n").unwrap(), jnull());
    assert_eq!(Json::from_str("true").unwrap(), jbool(true));
    assert_eq!(Json::from_str("\r\nfalse").unwrap(), jbool(false));
}

#[test]
fn other_identifiers_are_unknown() {
    assert!(matches!(kind("nul"), ErrorType::UnknownIdent));
    assert!(matches!(kind("nill"), ErrorType::UnknownIdent));
    assert!(matches!(kind("tru"), ErrorType::UnknownIdent));
    assert!(matches!(kind("fals"), ErrorType::UnknownIdent));
    assert!(matches!(kind("gibberish"), ErrorType::UnknownIdent));
    assert!(matches!(kind("undefined"), ErrorType::UnknownIdent));
    assert!(matches!(kind("]"), ErrorType::UnknownIdent));
    // a tab is no whitespace here
    assert!(matches!(kind("\tnull"), ErrorType::UnknownIdent));
}

#[test]
fn unknown_ident_is_placed_at_the_differing_byte() {
    assert_eq!(place("nulx"), (1, 4));
    assert_eq!(place("nul"), (1, 3));
    assert_eq!(place("\n  trUe"), (2, 5));
}

#[test]
fn simple_escapes_decode() {
    match Json::from_str("\"\\n\\r\\t\\b\\f \\\\ \\/\"").unwrap() {
        Json(JsonInner::String(s)) => {
            assert_eq!(s.as_bytes(), &[0x0a, 0x0d, 0x09, 0x07, 0x0c, 0x20, 0x5c, 0x20, 0x2f]);
        }
        other => panic!("not a string: {:?}", other),
    }
}

#[test]
fn bad_escape_is_malformed() {
    assert!(matches!(kind("\"\\c\""), ErrorType::MalformedEscape));
    assert!(matches!(kind("\"\\'\""), ErrorType::MalformedEscape));
}

#[test]
fn surrogate_pair_decodes_to_one_scalar() {
    match Json::from_str("\"\\ud834\\uDD1E\"").unwrap() {
        Json(JsonInner::String(s)) => {
            let chars: Vec<char> = s.chars().collect();
            assert_eq!(chars, vec!['\u{1d11e}']);
        }
        other => panic!("not a string: {:?}", other),
    }
}

#[test]
fn lone_surrogates_are_unpaired() {
    assert!(matches!(kind("\"\\ud834\""), ErrorType::UnpairedSurrogate));
    assert!(matches!(kind("\"\\ud834 \""), ErrorType::UnpairedSurrogate));
    assert!(matches!(kind("\"\\udd1e\\ud834\""), ErrorType::UnpairedSurrogate));
    assert!(matches!(kind("\"\\ud834\\n\""), ErrorType::UnpairedSurrogate));
    assert!(matches!(kind("\"\\ud834\\u0041\""), ErrorType::UnpairedSurrogate));
}

#[test]
fn escapes_in_a_run_are_decoded_together() {
    assert_eq!(Json::from_str("\"a\\u0041\\u00e9\\u4e2d\\n!\"").unwrap(), jstr("aA\u{e9}\u{4e2d}\n!"));
    assert_eq!(Json::from_str("\"\\u0041\\\\\"").unwrap(), jstr("A\\"));
    assert_eq!(Json::from_str("\"\\u0041\\\"\"").unwrap(), jstr("A\""));
}

#[test]
fn code_units_need_four_hex_digits() {
    assert!(matches!(kind("\"\\u12g4\""), ErrorType::Unicode(_)));
    assert!(matches!(kind("\"\\u123\""), ErrorType::Unicode(_)));
    assert!(matches!(kind("\"\\uf+ff\""), ErrorType::Unicode(_)));
    assert!(matches!(kind("\"\\u-123\""), ErrorType::Unicode(_)));
    assert!(matches!(kind("\"\\u+123\""), ErrorType::MalformedEscape));
    assert!(matches!(kind("\"\\u12"), ErrorType::UnexpectedEOF));
    assert_eq!(Json::from_str("\"\\uABcd\"").unwrap(), jstr("\u{abcd}"));
    assert_eq!(Json::from_str("\"\\u0000\"").unwrap(), jstr("\u{0}"));
}

#[test]
fn strings_must_open_and_close() {
    assert!(matches!(kind("'single'"), ErrorType::ExpectedString));
    assert!(matches!(kind("{a: 1}"), ErrorType::ExpectedString));
    assert!(matches!(kind("{\\\"}"), ErrorType::ExpectedString));
    assert!(matches!(kind("\"open"), ErrorType::UnexpectedEOF));
    assert!(matches!(kind("\""), ErrorType::UnexpectedEOF));
    assert!(matches!(kind("\"\\"), ErrorType::UnexpectedEOF));
    assert!(matches!(kind("\"\\u0041"), ErrorType::UnexpectedEOF));
    assert!(matches!(kind("\"\\u0041\\"), ErrorType::UnexpectedEOF));
}

#[test]
fn bytes_of_a_string_are_kept_as_they_are() {
    match Json::from_bytes(&[0x22, 0xc3, 0xa9, 0x22]).unwrap() {
        Json(JsonInner::String(s)) => {
            assert_eq!(s.as_bytes(), &[0xc3, 0xa9]);
            assert_eq!(s, "\u{e9}");
        }
        other => panic!("not a string: {:?}", other),
    }
    let mut p = Parser::new([0x22u8, 0xc3, 0xa9, 0x22].iter().map(|b| Ok(*b)));
    assert_eq!(p.parse_string().unwrap().as_bytes(), &[0xc3, 0xa9]);
    assert_eq!(Json::from_str("\"h\u{e9}llo \u{4e2d}\u{6587} \u{1d11e}\"").unwrap(), jstr("h\u{e9}llo \u{4e2d}\u{6587} \u{1d11e}"));
    assert_eq!(
        Json::from_str("{\"cl\u{e9}\": \"\u{e9}\\u00e9\\n\u{e9}\"}").unwrap(),
        jobj(vec![("cl\u{e9}", jstr("\u{e9}\u{e9}\n\u{e9}"))])
    );
}

#[test]
fn a_string_that_is_not_utf8_is_refused_at_its_closing_quote() {
    for bytes in [
        vec![0x22u8, 0xff, 0x22],
        vec![0x22, 0xc3, 0x22],
        vec![0x22, 0x61, 0xa9, 0x62, 0x22],
        vec![0x22, 0xed, 0xa0, 0x80, 0x22],
        vec![0x22, 0xc0, 0xaf, 0x22],
    ] {
        let e = Json::from_bytes(&bytes).unwrap_err();
        match &e.error {
            ErrorType::Other(what) => assert_eq!(what, "string is not valid UTF-8"),
            other => panic!("{:?} gave {:?}", bytes, other),
        }
        assert_eq!((e.line, e.col), (1, bytes.len()));
        assert_eq!(e.to_string(), "syntax error: string is not valid UTF-8");
    }
    // a byte and an escape do not join into one character
    let e = Json::from_bytes(b"\"\xc3\\u00a9\"").unwrap_err();
    assert!(matches!(e.error, ErrorType::Other(_)));
    // before the closing quote nothing is refused
    let e = Json::from_bytes(&[0x22, 0xff]).unwrap_err();
    assert!(matches!(e.error, ErrorType::UnexpectedEOF));
    let e = Json::from_bytes(&[0x22, 0xff, 0x5c, 0x63, 0x22]).unwrap_err();
    assert!(matches!(e.error, ErrorType::MalformedEscape));
}

#[test]
fn leading_zeros_are_malformed() {
    assert!(matches!(kind("00"), ErrorType::MalformedNumber));
    assert!(matches!(kind("0123"), ErrorType::MalformedNumber));
    assert_eq!(Json::from_str("0").unwrap(), jnum("0"));
    assert_eq!(Json::from_str("0.5").unwrap(), jnum("0.5"));
}

#[test]
fn signs_of_a_number() {
    assert!(matches!(kind("+1"), ErrorType::UnknownIdent));
    assert_eq!(Json::from_str("-0").unwrap(), jnum("-0"));
    assert!(matches!(kind("-"), ErrorType::MalformedNumber));
    assert!(matches!(kind("2-3"), ErrorType::UnexpectedCharacter('-')));
    assert!(matches!(kind("2+3"), ErrorType::UnexpectedCharacter('+')));
    assert!(matches!(kind("1e+5+3"), ErrorType::UnexpectedCharacter('+')));
    assert!(matches!(kind("1e-5-3"), ErrorType::UnexpectedCharacter('-')));
}

#[test]
fn number_lexer_rejects_by_state() {
    let mut p = Parser::new("+1".bytes().map(Ok));
    assert!(matches!(p.parse_number().unwrap_err().error, ErrorType::UnexpectedCharacter('+')));
    let mut p = Parser::new(".5".bytes().map(Ok));
    assert!(matches!(p.parse_number().unwrap_err().error, ErrorType::MalformedNumber));
    let mut p = Parser::new("9.5.5".bytes().map(Ok));
    assert!(matches!(p.parse_number().unwrap_err().error, ErrorType::MalformedNumber));
    let mut p = Parser::new("1e2e5".bytes().map(Ok));
    assert!(matches!(p.parse_number().unwrap_err().error, ErrorType::MalformedNumber));
    let mut p = Parser::new("1e2.5".bytes().map(Ok));
    assert!(matches!(p.parse_number().unwrap_err().error, ErrorType::MalformedNumber));
    let mut p = Parser::new("e5".bytes().map(Ok));
    assert!(matches!(p.parse_number().unwrap_err().error, ErrorType::MalformedNumber));
    let mut p = Parser::new("3f".bytes().map(Ok));
    assert!(matches!(p.parse_number().unwrap_err().error, ErrorType::UnexpectedCharacter('f')));
    let mut p = Parser::new("".bytes().map(Ok));
    assert!(matches!(p.parse_number().unwrap_err().error, ErrorType::MalformedNumber));
}

#[test]
fn number_lexer_returns_the_text_unchanged() {
    for text in ["0", "-0", "7", "101.99", "-10.1e55", "1E+5", "1e-5", "0e0", "12.", "1e"] {
        let mut p = Parser::new(text.bytes().map(Ok));
        let first = p.parse_number().unwrap();
        assert_eq!(first, text);
        let mut again = Parser::new(first.bytes().map(Ok));
        assert_eq!(again.parse_number().unwrap(), text);
    }
}

#[test]
fn number_ends_at_a_delimiter_that_stays() {
    for end in [" ", "\n", "\r", ",", ":", "]", "}"] {
        let input = format!("42{}7", end);
        let mut p = Parser::new(input.bytes().map(Ok));
        assert_eq!(p.parse_number().unwrap(), "42");
        assert_eq!(p.peek().unwrap(), Some(end.as_bytes()[0]));
    }
}

#[test]
fn empty_collections() {
    assert_eq!(Json::from_str("[]").unwrap(), jarr(vec![]));
    assert_eq!(Json::from_str("{}").unwrap(), jobj(vec![]));
    assert_eq!(Json::from_str(" [ \n ] ").unwrap(), jarr(vec![]));
    assert_eq!(Json::from_str(" { \r } ").unwrap(), jobj(vec![]));
}

#[test]
fn trailing_commas_and_missing_separators_fail() {
    assert!(matches!(kind("[1,]"), ErrorType::UnknownIdent));
    assert!(matches!(kind("{\"k\":1,}"), ErrorType::ExpectedString));
    assert!(matches!(kind("[1 2]"), ErrorType::UnknownIdent));
    assert!(matches!(kind("{\"k\":1 \"l\":2}"), ErrorType::UnexpectedCharacter('"')));
    assert!(matches!(kind("{\"key\" \"val\"}"), ErrorType::UnexpectedCharacter('"')));
    assert!(matches!(kind("[1"), ErrorType::UnexpectedEOF));
    assert!(matches!(kind("[1,"), ErrorType::UnexpectedEOF));
    assert!(matches!(kind("["), ErrorType::UnexpectedEOF));
    assert!(matches!(kind("{"), ErrorType::UnexpectedEOF));
    assert!(matches!(kind("{\"k\""), ErrorType::UnexpectedEOF));
    assert!(matches!(kind("{\"k\":"), ErrorType::UnexpectedEOF));
    assert!(matches!(kind("{\"k\":1"), ErrorType::UnexpectedEOF));
    assert!(matches!(kind(""), ErrorType::UnexpectedEOF));
    assert!(matches!(kind("   "), ErrorType::UnexpectedEOF));
}

#[test]
fn duplicate_keys_are_kept_in_order() {
    match Json::from_str("{\"key\":\"val\",\"key\":\"val2\"}").unwrap() {
        Json(JsonInner::Object(members)) => {
            assert_eq!(members.len(), 2);
            assert_eq!(members[0], ("key".to_owned(), jstr("val")));
            assert_eq!(members[1], ("key".to_owned(), jstr("val2")));
        }
        other => panic!("not an object: {:?}", other),
    }
}

#[test]
fn position_points_at_the_byte_looked_at() {
    assert_eq!(place("10+5"), (1, 3));
    assert_eq!(place("[1,\n 2 3]"), (2, 4));
    assert_eq!(place("\n\n"), (3, 0));
    assert_eq!(place(""), (1, 0));
    assert_eq!(place("[\n\n  x"), (3, 3));
}

#[test]
fn failure_of_the_source_is_reported_where_it_happens() {
    let items: Vec<std::io::Result<u8>> = vec![
        Ok(b'['),
        Ok(b'1'),
        Ok(b','),
        Ok(b'\n'),
        Ok(b' '),
        Err(std::io::Error::new(std::io::ErrorKind::Other, "pipe broke")),
        Ok(b']'),
    ];
    let mut parser = Parser::new(items.into_iter());
    let e = parser.parse().unwrap_err();
    assert_eq!((e.line, e.col), (2, 1));
    match &e.error {
        ErrorType::Io(inner) => assert_eq!(inner.to_string(), "pipe broke"),
        other => panic!("not a source failure: {:?}", other),
    }
    assert_eq!(e.to_string(), "2:1: pipe broke");
}

#[test]
fn cursor_counts_a_byte_once() {
    let mut p = Parser::new("a\nb".bytes().map(Ok));
    assert_eq!((p.line, p.col), (1, 0));
    assert_eq!(p.peek().unwrap(), Some(b'a'));
    assert_eq!(p.peek().unwrap(), Some(b'a'));
    assert_eq!((p.line, p.col), (1, 1));
    p.eat();
    assert_eq!((p.line, p.col), (1, 1));
    assert_eq!(p.peek_noeof().unwrap(), b'\n');
    assert_eq!((p.line, p.col), (2, 0));
    p.eat();
    assert_eq!(p.peek().unwrap(), Some(b'b'));
    assert_eq!((p.line, p.col), (2, 1));
    p.eat();
    assert_eq!(p.peek().unwrap(), None);
    assert!(matches!(p.peek_noeof().unwrap_err().error, ErrorType::UnexpectedEOF));
    assert_eq!((p.line, p.col), (2, 1));
}

#[test]
fn next_hands_out_a_fresh_byte_and_keeps_it() {
    let mut p = Parser::new("xy".bytes().map(Ok));
    assert_eq!(p.next().unwrap().unwrap(), b'x');
    assert_eq!(p.peek, Some(b'x'));
    assert_eq!(p.next().unwrap().unwrap(), b'x');
    assert_eq!(p.peek, None);
    assert_eq!(p.next().unwrap().unwrap(), b'y');
}

#[test]
fn whitespace_is_space_line_feed_and_carriage_return() {
    let mut p = Parser::new(" \n\r\tx".bytes().map(Ok));
    p.eat_whitespace().unwrap();
    assert_eq!(p.peek().unwrap(), Some(b'\t'));
    assert_eq!((p.line, p.col), (2, 2));
}

#[test]
fn eat_ident_stops_at_the_first_other_byte() {
    let mut p = Parser::new("nuxl".bytes().map(Ok));
    let e = p.eat_ident("null").unwrap_err();
    assert!(matches!(e.error, ErrorType::UnknownIdent));
    assert_eq!((e.line, e.col), (1, 3));
    assert_eq!(p.peek().unwrap(), Some(b'x'));
    let mut p = Parser::new("nullx".bytes().map(Ok));
    p.eat_ident("null").unwrap();
    assert_eq!(p.peek().unwrap(), Some(b'x'));
}

#[test]
fn error_at_takes_the_position_of_the_reader() {
    let mut p = Parser::new("ab".bytes().map(Ok));
    p.peek().unwrap();
    p.eat();
    p.peek().unwrap();
    let e = p.error_at(ErrorType::MalformedNumber);
    assert_eq!((e.line, e.col), (1, 2));
    assert!(matches!(e.error, ErrorType::MalformedNumber));
}

#[test]
fn messages() {
    let at = |error: ErrorType| Error { line: 12, col: 340, error };
    assert_eq!(at(ErrorType::UnexpectedCharacter('x')).to_string(), "12:340: unexpected character x");
    assert_eq!(at(ErrorType::ExpectedString).to_string(), "12:340: expected string");
    assert_eq!(at(ErrorType::UnexpectedEOF).to_string(), "12:340: unexpected eof");
    assert_eq!(at(ErrorType::MalformedEscape).to_string(), "12:340: bad escape");
    assert_eq!(at(ErrorType::MalformedNumber).to_string(), "12:340: malformed number");
    assert_eq!(at(ErrorType::UnknownIdent).to_string(), "12:340: unknown ident");
    assert_eq!(at(ErrorType::UnpairedSurrogate).to_string(), "12:340: UTF-16 unpaired surrogate");
    assert_eq!(at(ErrorType::MissingField("name")).to_string(), "missing field `name`");
    assert_eq!(at(ErrorType::UnknownField("nom".to_owned())).to_string(), "unknown field `nom`");
    assert_eq!(at(ErrorType::Other("what".to_owned())).to_string(), "syntax error: what");
    assert_eq!(Error { line: 0, col: 7, error: ErrorType::UnexpectedEOF }.to_string(), "0:7: unexpected eof");
    let digits = "x".parse::<u16>().unwrap_err();
    let shown = digits.to_string();
    assert_eq!(at(ErrorType::Unicode(digits)).to_string(), format!("12:340: {}", shown));
}

#[test]
fn descriptions() {
    let at = |error: ErrorType| Error { line: 1, col: 1, error };
    assert_eq!(at(ErrorType::ExpectedString).description(), "expected string");
    assert_eq!(at(ErrorType::UnexpectedEOF).description(), "unexpected eof");
    assert_eq!(at(ErrorType::UnexpectedCharacter('x')).description(), "bad character");
    assert_eq!(at(ErrorType::MalformedEscape).description(), "bad escape");
    assert_eq!(at(ErrorType::MalformedNumber).description(), "malformed number");
    assert_eq!(at(ErrorType::UnknownIdent).description(), "unknown ident");
    assert_eq!(at(ErrorType::UnpairedSurrogate).description(), "UTF-16 unpaired surrogate");
    assert_eq!(at(ErrorType::MissingField("a")).description(), "missing field");
    assert_eq!(at(ErrorType::UnknownField("a".to_owned())).description(), "unknown field");
    assert_eq!(at(ErrorType::Other("a".to_owned())).description(), "syntax/other error");
}

#[test]
fn conversions() {
    let e = Error::from(ErrorType::MalformedNumber);
    assert_eq!((e.line, e.col), (1, 1));
    assert!(matches!(e.error, ErrorType::MalformedNumber));
    let digits = "x".parse::<u16>().unwrap_err();
    assert!(matches!(ErrorType::from(digits), ErrorType::Unicode(_)));
    let io = std::io::Error::new(std::io::ErrorKind::Other, "gone");
    assert!(matches!(ErrorType::from(io), ErrorType::Io(_)));
}

#[test]
fn nothing_after_the_value_is_consumed() {
    let mut p = Parser::new("null true".bytes().map(Ok));
    assert_eq!(p.parse().unwrap(), jnull());
    assert_eq!(p.parse().unwrap(), jbool(true));
    assert!(matches!(p.parse().unwrap_err().error, ErrorType::UnexpectedEOF));
}

#[test]
#[allow(deprecated)]
fn wrapped_errors_describe_themselves() {
    let digits = "x".parse::<u16>().unwrap_err();
    let expected = std::error::Error::description(&digits).to_owned();
    let e = Error { line: 1, col: 1, error: ErrorType::Unicode("x".parse::<u16>().unwrap_err()) };
    assert_eq!(e.description(), expected);
    let io = std::io::Error::new(std::io::ErrorKind::Other, "gone");
    let expected = std::error::Error::description(&io).to_owned();
    let e = Error { line: 1, col: 1, error: ErrorType::Io(io) };
    assert_eq!(e.description(), expected);
}

#[test]
fn containers_nest() {
    let text = "{\"a\": [1, {\"b\": null}, \"c\"], \"d\": {}}";
    assert_eq!(
        Json::from_str(text).unwrap(),
        jobj(vec![
            ("a", jarr(vec![jnum("1"), jobj(vec![("b", jnull())]), jstr("c")])),
            ("d", jobj(vec![])),
        ])
    );
}

#[test]
fn stray_bytes_in_an_object_are_named() {
    assert!(matches!(kind("{\"k\" 1}"), ErrorType::UnexpectedCharacter('1')));
    assert!(matches!(kind("{\"k\": 1 ]"), ErrorType::UnexpectedCharacter(']')));
    assert!(matches!(kind("[1 }"), ErrorType::UnknownIdent));
}

#[test]
fn signs_may_repeat_before_the_digits() {
    assert_eq!(Json::from_str("--1").unwrap(), jnum("--1"));
    assert_eq!(Json::from_str("1e5+3").unwrap(), jnum("1e5+3"));
}
