use query_engine::{
    ArraySliceIndex, CharLocations, CompactChars, JsonParsingState, Location, ObjectKeyIndex, PrettyChars,
    RawTokenStream, Sanitized, Scope, Slurp, StreamContext, Token, Values,
};
use query_engine::tokenizer::Tokenizer;

fn chars(s: &str) -> Vec<char> {
    s.chars().collect()
}

#[test]
fn char_locations_track_lines() {
    let mut c = CharLocations::new(chars("a\nbc"));
    assert_eq!(c.peek_location(), Location::new(0, 0));
    assert_eq!(c.next(), Some('a'));
    assert_eq!(c.peek_location(), Location::new(0, 1));
    assert_eq!(c.next(), Some('\n'));
    assert_eq!(c.peek_location(), Location::new(1, 0));
    assert_eq!(c.next(), Some('b'));
    assert_eq!(c.next(), Some('c'));
    assert_eq!(c.peek_location(), Location::new(1, 2));
    assert_eq!(c.next(), None);
}

#[test]
fn tokenizer_spans() {
    let mut t = Tokenizer::new(chars(" true,\n\"x\""));
    let (tok, span) = t.next().unwrap().unwrap();
    assert_eq!(tok, Token::True);
    assert_eq!((span.start, span.end), (Location::new(0, 1), Location::new(0, 5)));
    let (tok, _) = t.next().unwrap().unwrap();
    assert_eq!(tok, Token::Comma);
    let (tok, span) = t.next().unwrap().unwrap();
    assert_eq!(tok, Token::String("x".to_string()));
    assert_eq!((span.start, span.end), (Location::new(1, 0), Location::new(1, 3)));
    assert!(t.next().is_none());
}

#[test]
fn raw_stream_path_returns_to_top() {
    let mut r = RawTokenStream::new(chars("{\"a\":[1]}"));
    let mut depths = vec![];
    while let Some(item) = r.next() {
        assert!(item.is_ok());
        depths.push(r.get_path().len());
    }
    assert_eq!(depths, vec![1, 1, 1, 2, 2, 1, 0]);
}

#[test]
fn stream_context_paths() {
    let mut c = StreamContext::new();
    assert!(c.accept(&Token::ObjectStart));
    assert_eq!(c.get_path(), &vec![Scope::Object]);
    assert!(c.accept(&Token::String("k".to_string())));
    assert_eq!(c.get_path(), &vec![Scope::ObjectAtKey { index: 0, key: "k".to_string() }]);
    assert!(c.accept(&Token::Colon));
    assert!(c.accept(&Token::ArrayStart));
    assert!(c.accept(&Token::Null));
    assert!(c.accept(&Token::Comma));
    assert_eq!(c.get_path()[1], Scope::Array(1));
    assert!(!c.accept(&Token::Colon));
    assert!(c.accept(&Token::True));
    assert!(c.accept(&Token::ArrayEnd));
    assert!(c.accept(&Token::Comma));
    assert!(c.accept(&Token::String("m".to_string())));
    assert_eq!(c.get_path(), &vec![Scope::ObjectAtKey { index: 1, key: "m".to_string() }]);
    assert_eq!(c.state(), JsonParsingState::ObjectColon);
}

#[test]
fn sanitized_feed() {
    let mut s = Sanitized::new();
    assert_eq!(s.feed(Some(Ok(Token::ArrayStart))), Some(Ok(Token::ArrayStart)));
    assert_eq!(s.get_path().len(), 1);
    assert_eq!(s.feed(Some(Ok(Token::ObjectEnd))), Some(Err(query_engine::JQErr::InvalidStream)));
    assert_eq!(s.feed(Some(Ok(Token::ArrayEnd))), None);
    assert_eq!(s.feed(None), None);
}

#[test]
fn operators_fed_directly() {
    let mut k = ObjectKeyIndex::new("a".to_string(), true);
    let mut out = vec![];
    for t in [Token::ObjectStart, Token::String("a".to_string()), Token::Colon, Token::True, Token::ObjectEnd] {
        k.feed(Some(Ok(t)), &mut out);
    }
    k.feed(None, &mut out);
    assert_eq!(out, vec![Ok(Token::True)]);

    let mut v = Values::new(true);
    let mut out = vec![];
    for t in [Token::ArrayStart, Token::Null, Token::ArrayEnd] {
        v.feed(Some(Ok(t)), &mut out);
    }
    assert_eq!(out, vec![Ok(Token::Null)]);

    let mut s = Slurp::new();
    let mut out = vec![];
    s.feed(None, &mut out);
    assert_eq!(out, vec![Ok(Token::ArrayStart), Ok(Token::ArrayEnd)]);
}

#[test]
fn ring_keeps_last_elements() {
    let mut a = ArraySliceIndex::new(-2, true);
    let mut out = vec![];
    for t in [Token::ArrayStart, Token::True, Token::Comma, Token::False, Token::Comma, Token::Null] {
        a.feed(Some(Ok(t)), &mut out);
    }
    assert_eq!(a.queue(), &vec![vec![Token::False], vec![Token::Null]]);
    a.feed(Some(Ok(Token::ArrayEnd)), &mut out);
    assert_eq!(out, vec![Ok(Token::False)]);
}

#[test]
fn printers_fed_directly() {
    let mut c = CompactChars::new();
    let mut out = vec![];
    assert_eq!(c.feed(Some(Ok(Token::String("q\"".to_string()))), &mut out), None);
    assert_eq!(out.iter().collect::<String>(), "\"q\\\"\"\n");

    let mut p = PrettyChars::new();
    let mut out = vec![];
    for t in [Token::ArrayStart, Token::Number("1".to_string()), Token::ArrayEnd] {
        assert_eq!(p.feed(Some(Ok(t)), &mut out), None);
    }
    assert_eq!(out.iter().collect::<String>(), "[\n  1\n]");
}

#[test]
fn value_start_tokens() {
    assert!(Token::ObjectStart.is_value_start());
    assert!(Token::Number("1".to_string()).is_value_start());
    assert!(Token::Null.is_value_start());
    assert!(!Token::Comma.is_value_start());
    assert!(!Token::ArrayEnd.is_value_start());
    assert!(!Token::Colon.is_value_start());
}
