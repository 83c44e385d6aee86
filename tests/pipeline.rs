use query_engine::{render_compact, render_pretty, Item, JQErr, JQStream, Location, Null, RawTokenStream, Token};

fn items(text: &str) -> Vec<Item> {
    JQStream::from_json(text).collect()
}

fn num(s: &str) -> Item {
    Ok(Token::Number(s.to_string()))
}

fn string(s: &str) -> Item {
    Ok(Token::String(s.to_string()))
}

#[test]
fn empty_input_yields_nothing() {
    assert_eq!(items(""), vec![]);
    assert_eq!(items("  \n\t "), vec![]);
}

fn depths(text: &str) -> Vec<usize> {
    let mut raw = RawTokenStream::new(text.chars().collect());
    let mut out = vec![];
    while let Some(item) = raw.next() {
        assert!(item.is_ok());
        out.push(raw.get_path().len());
    }
    out
}

#[test]
fn empty_object_tokens() {
    assert_eq!(items("{}"), vec![Ok(Token::ObjectStart), Ok(Token::ObjectEnd)]);
    assert_eq!(depths("{}"), vec![1, 0]);
}

#[test]
fn empty_array_tokens() {
    assert_eq!(items("[]"), vec![Ok(Token::ArrayStart), Ok(Token::ArrayEnd)]);
    assert_eq!(depths("[]"), vec![1, 0]);
}

#[test]
fn last_index_of_empty_array_is_null() {
    let out = JQStream::from_json("[]").at_index(-1).collect();
    assert_eq!(out, vec![Ok(Token::Null)]);
}

#[test]
fn last_index_of_array() {
    let out = JQStream::from_json("[1,2,3]").at_index(-1).collect();
    assert_eq!(out, vec![num("3")]);
}

#[test]
fn key_of_null_is_null() {
    let out = JQStream::from_json("null").at_key("x".to_string()).collect();
    assert_eq!(out, vec![Ok(Token::Null)]);
}

#[test]
fn key_of_number_fails() {
    let out = JQStream::from_json("1").at_key("x".to_string()).collect();
    assert_eq!(
        out,
        vec![Err(JQErr::StreamOperationFailed("Cannot index number with string \"x\"".to_string()))]
    );
}

#[test]
fn key_of_number_suppressed() {
    let out = JQStream::from_json("1").at_key_suppress_errs("x".to_string()).collect();
    assert_eq!(out, vec![]);
}

#[test]
fn compact_round_trip_scenario() {
    let text = JQStream::from_json("{\"a\":1,\"b\":[true,null]}").to_string();
    assert_eq!(text, Ok("{\"a\":1,\"b\":[true,null]}\n".to_string()));
}

#[test]
fn negative_index_scenario() {
    let out = JQStream::from_json("[10,20,30,40]").at_index(-2).collect();
    assert_eq!(out, vec![num("30")]);
}

#[test]
fn negative_index_beyond_length() {
    let out = JQStream::from_json("[10,20] [[1,{\"a\":2}],3]").at_index(-2).collect();
    assert_eq!(
        out,
        vec![
            num("10"),
            Ok(Token::ArrayStart),
            num("1"),
            Ok(Token::Comma),
            Ok(Token::ObjectStart),
            string("a"),
            Ok(Token::Colon),
            num("2"),
            Ok(Token::ObjectEnd),
            Ok(Token::ArrayEnd),
        ]
    );
    let out = JQStream::from_json("[10]").at_index(-2).collect();
    assert_eq!(out, vec![Ok(Token::Null)]);
}

#[test]
fn positive_index() {
    let out = JQStream::from_json("[10,[20,21],30]").at_index(1).collect();
    assert_eq!(
        out,
        vec![Ok(Token::ArrayStart), num("20"), Ok(Token::Comma), num("21"), Ok(Token::ArrayEnd)]
    );
    let out = JQStream::from_json("[10]").at_index(5).collect();
    assert_eq!(out, vec![Ok(Token::Null)]);
}

#[test]
fn index_of_object_fails() {
    let out = JQStream::from_json("{\"a\":1}").at_index(0).collect();
    assert_eq!(out, vec![Err(JQErr::StreamOperationFailed("Cannot index object with number".to_string()))]);
    let out = JQStream::from_json("{\"a\":1} [7]").at_index_suppress_errs(0).collect();
    assert_eq!(out, vec![num("7")]);
}

#[test]
fn slurp_multi_document() {
    let out = JQStream::from_json("1 2 3").slurp().collect();
    assert_eq!(
        out,
        vec![
            Ok(Token::ArrayStart),
            num("1"),
            Ok(Token::Comma),
            num("2"),
            Ok(Token::Comma),
            num("3"),
            Ok(Token::ArrayEnd),
        ]
    );
    assert_eq!(JQStream::from_json("1 2 3").slurp().to_string(), Ok("[1,2,3]\n".to_string()));
}

#[test]
fn slurp_of_nothing_is_empty_array() {
    assert_eq!(JQStream::from_json("").slurp().to_string(), Ok("[]\n".to_string()));
}

#[test]
fn key_traversal() {
    let out = JQStream::from_json("{\"a\":{\"b\":42}}")
        .at_key("a".to_string())
        .at_key("b".to_string())
        .collect();
    assert_eq!(out, vec![num("42")]);
}

#[test]
fn missing_key_is_null() {
    let out = JQStream::from_json("{\"a\":1,\"b\":2} {}").at_key("c".to_string()).collect();
    assert_eq!(out, vec![Ok(Token::Null), Ok(Token::Null)]);
    let out = JQStream::from_json("{\"a\":1,\"b\":2}").at_key("b".to_string()).collect();
    assert_eq!(out, vec![num("2")]);
}

#[test]
fn suppressed_iteration() {
    // numbers and strings are skipped by the suppressed key lookup; null gives null
    let out = JQStream::from_json("[1,\"x\",null]")
        .values_suppress_errs()
        .at_key_suppress_errs("foo".to_string())
        .collect();
    assert_eq!(out, vec![Ok(Token::Null)]);
}

#[test]
fn values_of_object_and_array() {
    let out = JQStream::from_json("{\"a\":1,\"b\":[2]} [3,4]").values().collect();
    assert_eq!(
        out,
        vec![num("1"), Ok(Token::ArrayStart), num("2"), Ok(Token::ArrayEnd), num("3"), num("4")]
    );
    assert_eq!(
        JQStream::from_json("{\"a\":1,\"b\":[2]}").values().to_string(),
        Ok("1\n[2]\n".to_string())
    );
}

#[test]
fn values_of_leaf_fails() {
    let out = JQStream::from_json("true").values().collect();
    assert_eq!(out, vec![Err(JQErr::StreamOperationFailed("Cannot iterate over boolean".to_string()))]);
    let out = JQStream::from_json("\"s\" [1]").values_suppress_errs().collect();
    assert_eq!(out, vec![num("1")]);
}

#[test]
fn pretty_render() {
    let text = JQStream::from_json("{\"a\":[1,2]}").to_string_pretty();
    assert_eq!(text, Ok("{\n  \"a\": [\n    1,\n    2\n  ]\n}".to_string()));
}

#[test]
fn pretty_render_empty_containers_and_documents() {
    let text = JQStream::from_json("{\"a\":{},\"b\":[]} 1").to_string_pretty();
    assert_eq!(text, Ok("{\n  \"a\": {},\n  \"b\": []\n}\n1".to_string()));
}

#[test]
fn error_latching() {
    let mut s = JQStream::from_json("{,}");
    assert_eq!(s.next(), Some(Ok(Token::ObjectStart)));
    assert_eq!(s.next(), Some(Err(JQErr::UnexpectedCharacter(Location::new(0, 1)))));
    assert_eq!(s.next(), None);
    assert_eq!(s.next(), None);
}

#[test]
fn grammar_closure_on_bad_input() {
    for text in ["[1,]", "{\"a\" 1}", "[1 2]", "]", "{\"a\":1,}", "[1", "tru", "\"abc"] {
        let out = items(text);
        let errors = out.iter().filter(|i| i.is_err()).count();
        assert_eq!(errors, 1, "{text}");
        assert!(out.last().unwrap().is_err(), "{text}");
    }
}

#[test]
fn idempotent_sanitize() {
    let input = vec![
        Ok(Token::ArrayStart),
        num("1"),
        Ok(Token::Comma),
        Ok(Token::Colon),
        num("2"),
    ];
    let once = JQStream::from_items(input.clone()).sanitize().collect();
    let twice = JQStream::from_items(input).sanitize().sanitize().collect();
    assert_eq!(once, twice);
    assert_eq!(once, vec![Ok(Token::ArrayStart), num("1"), Ok(Token::Comma), Err(JQErr::InvalidStream)]);
}

#[test]
fn fuse_after_error() {
    let input = vec![num("1"), Err(JQErr::UnexpectedEOF), num("2")];
    let out = JQStream::from_items(input).sanitize().collect();
    assert_eq!(out, vec![num("1"), Err(JQErr::UnexpectedEOF)]);
}

#[test]
fn unfinished_stream_reports_eof() {
    let out = JQStream::from_items(vec![Ok(Token::ArrayStart)]).sanitize().collect();
    assert_eq!(out, vec![Ok(Token::ArrayStart), Err(JQErr::UnexpectedEOF)]);
    assert_eq!(items("[1"), vec![Ok(Token::ArrayStart), num("1"), Err(JQErr::UnexpectedEOF)]);
}

#[test]
fn render_round_trip() {
    let text = "{\"k\\\"\\\\\":[\"a\\nb\\u0041\\t\",-1.5e3,0,false]}";
    let first = items(text);
    let rendered = render_compact(first.clone()).unwrap();
    let second = items(&rendered);
    assert_eq!(first, second);
    assert_eq!(first[1], string("k\"\\"));
    assert_eq!(first[4], string("a\nbA\t"));
}

#[test]
fn multi_document_preservation() {
    let text = JQStream::from_json(" 1 [2]\n{\"a\":3} \"x\" ").to_string();
    assert_eq!(text, Ok("1\n[2]\n{\"a\":3}\n\"x\"\n".to_string()));
}

#[test]
fn render_reports_first_error() {
    assert_eq!(render_compact(vec![num("1"), Err(JQErr::InvalidStream)]), Err(JQErr::InvalidStream));
    assert_eq!(render_pretty(vec![Ok(Token::ArrayStart)]), Err(JQErr::UnexpectedEOF));
    assert_eq!(render_compact(vec![Ok(Token::ArrayStart), Ok(Token::ArrayEnd)]), Ok("[]\n".to_string()));
}

#[test]
fn lexical_errors() {
    assert_eq!(items("01"), vec![Err(JQErr::IllegalLeading0(Location::new(0, 1)))]);
    assert_eq!(items("[-x]"), vec![Ok(Token::ArrayStart), Err(JQErr::UnexpectedCharacter(Location::new(0, 2)))]);
    assert_eq!(items("\"a\u{1}\""), vec![Err(JQErr::UnescapedEscapeCharacter(Location::new(0, 2)))]);
    assert_eq!(items("\"\\x\""), vec![Err(JQErr::InvalidEscapeSequence(Location::new(0, 2)))]);
    assert_eq!(items("\"\\u12g4\""), vec![Err(JQErr::UnexpectedCharacter(Location::new(0, 5)))]);
    assert_eq!(items("\"\\ud800\""), vec![Err(JQErr::InvalidEscapeSequence(Location::new(0, 2)))]);
    assert_eq!(items("nul"), vec![Err(JQErr::UnexpectedCharacter(Location::new(0, 3)))]);
    assert_eq!(items("1.x"), vec![Err(JQErr::UnexpectedCharacter(Location::new(0, 2)))]);
    assert_eq!(items("1e"), vec![Err(JQErr::UnexpectedCharacter(Location::new(0, 2)))]);
    assert_eq!(items("@"), vec![Err(JQErr::UnexpectedCharacter(Location::new(0, 0)))]);
    assert_eq!(items("\"ab"), vec![Err(JQErr::UnexpectedEOF)]);
}

#[test]
fn numbers_and_locations() {
    assert_eq!(items("-0.25E10"), vec![num("-0.25E10")]);
    assert_eq!(items("12e3"), vec![num("12e3")]);
    assert_eq!(items("1-2"), vec![num("1"), num("-2")]);
    assert_eq!(
        items("[\n  1,\n  x]"),
        vec![Ok(Token::ArrayStart), num("1"), Ok(Token::Comma), Err(JQErr::UnexpectedCharacter(Location::new(2, 2)))]
    );
}

#[test]
fn unicode_escape_and_slash() {
    assert_eq!(items("\"\\u00e9/\\/\""), vec![string("\u{e9}//")]);
    assert_eq!(render_compact(vec![string("\u{1}\"")]), Ok("\"\\u0001\\\"\"\n".to_string()));
}

#[test]
fn null_source() {
    let mut n = Null::default();
    assert_eq!(n.next(), Some(Ok(Token::Null)));
    assert_eq!(n.next(), None);
    assert_eq!(Null::default().into_stream().at_key("a".to_string()).to_string(), Ok("null\n".to_string()));
}

#[test]
fn error_messages() {
    assert_eq!(JQErr::UnexpectedEOF.message(), "Unexpected EOF.");
    assert_eq!(JQErr::InvalidStream.message(), "Underlying stream was invalid.");
    assert_eq!(
        JQErr::UnexpectedCharacter(Location::new(3, 17)).message(),
        "Found unexpected character at line: 3, col: 17."
    );
    assert_eq!(
        JQErr::IllegalLeading0(Location::new(0, 120)).message(),
        "Found illegal leading 0 at line: 0, col: 120."
    );
    assert_eq!(JQErr::StreamOperationFailed("boom".to_string()).message(), "error: boom");
    let l = Location::new(4, 9);
    assert_eq!((l.line(), l.col()), (4, 9));
    assert_eq!(l.describe(), "line: 4, col: 9");
}

#[test]
fn error_kinds_and_locations() {
    assert_eq!(items("t\nrue"), vec![Err(JQErr::UnexpectedCharacter(Location::new(0, 1)))]);
    assert_eq!(items("\n01"), vec![Err(JQErr::IllegalLeading0(Location::new(1, 1)))]);
    assert_eq!(
        items("[1 [2]]"),
        vec![Ok(Token::ArrayStart), num("1"), Err(JQErr::UnexpectedCharacter(Location::new(0, 3)))]
    );
    assert_eq!(
        items("1 [2] {}"),
        vec![num("1"), Ok(Token::ArrayStart), num("2"), Ok(Token::ArrayEnd), Ok(Token::ObjectStart), Ok(Token::ObjectEnd)]
    );
}
