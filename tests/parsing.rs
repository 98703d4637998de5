use json_parser::ast::JsonValue;
use json_parser::error::ErrReason;
use json_parser::lexer::Lexer;
use json_parser::parser::Parser;
use json_parser::tokens::{Spanned, Token};

fn parse(src: &str) -> Result<Spanned<JsonValue<'_>>, Spanned<json_parser::error::JsonError<'_>>> {
    let toks = Lexer::new(src).tokenize().expect("lexing succeeds");
    Parser::new(toks).json()
}

fn member<'v, 'a>(v: &'v JsonValue<'a>, key: &str) -> &'v Spanned<JsonValue<'a>> {
    match v {
        JsonValue::Object(ms) => &ms.iter().find(|m| m.0 == key).expect("member present").1,
        _ => panic!("expected an object"),
    }
}

fn keys(v: &JsonValue<'_>) -> Vec<String> {
    match v {
        JsonValue::Object(ms) => {
            let mut k: Vec<String> = ms.iter().map(|m| m.0.to_string()).collect();
            k.sort();
            k
        }
        _ => panic!("expected an object"),
    }
}

#[test]
fn parse_nested_document() {
    let src = "{\"a\":1,\"b\":[true,null]}";
    let root = parse(src).unwrap();
    assert_eq!(root.span, 0..src.len());
    assert_eq!(keys(&root.elem), vec!["a".to_string(), "b".to_string()]);
    assert!(matches!(member(&root.elem, "a").elem, JsonValue::Num(1)));
    match &member(&root.elem, "b").elem {
        JsonValue::Array(items) => {
            assert_eq!(items.len(), 2);
            assert!(matches!(items[0].elem, JsonValue::Bool(true)));
            assert!(matches!(items[1].elem, JsonValue::Null));
        }
        _ => panic!("expected an array"),
    }
    assert_eq!(member(&root.elem, "b").span, 11..22);
}

#[test]
fn trailing_value_is_rejected() {
    let err = parse("null null").unwrap_err();
    assert!(matches!(err.elem.reason, ErrReason::UnexpectedTok(Token::Null)));
    assert_eq!(err.span, 5..9);
}

#[test]
fn duplicate_keys_last_write_wins() {
    let root = parse("{\"a\":1,\"a\":2}").unwrap();
    match &root.elem {
        JsonValue::Object(ms) => assert_eq!(ms.len(), 1),
        _ => panic!("expected an object"),
    }
    assert!(matches!(member(&root.elem, "a").elem, JsonValue::Num(2)));
    assert_eq!(member(&root.elem, "a").span, 11..12);
}

#[test]
fn reparsing_same_tokens_gives_same_tree() {
    let src = "{\"k\":[1,{\"x\":false},\"s\"],\"n\":null}";
    let toks = Lexer::new(src).tokenize().unwrap();
    let first = Parser::new(toks.clone()).json().unwrap();
    let second = Parser::new(toks).json().unwrap();
    assert_eq!(format!("{:?}", first), format!("{:?}", second));
}

#[test]
fn round_trip_keeps_structure() {
    let src = "{\"list\":[0,12,\"txt\",[],{}],\"flag\":false,\"inner\":{\"z\":null}}";
    let root = parse(src).unwrap();
    assert_eq!(keys(&root.elem), vec!["flag".to_string(), "inner".to_string(), "list".to_string()]);
    match &member(&root.elem, "list").elem {
        JsonValue::Array(items) => {
            assert_eq!(items.len(), 5);
            assert!(matches!(items[0].elem, JsonValue::Num(0)));
            assert!(matches!(items[1].elem, JsonValue::Num(12)));
            assert!(matches!(items[2].elem, JsonValue::Str("txt")));
            assert!(matches!(&items[3].elem, JsonValue::Array(a) if a.is_empty()));
            assert!(matches!(&items[4].elem, JsonValue::Object(o) if o.is_empty()));
        }
        _ => panic!("expected an array"),
    }
    assert!(matches!(member(&root.elem, "flag").elem, JsonValue::Bool(false)));
    let inner = member(&root.elem, "inner");
    assert!(matches!(member(&inner.elem, "z").elem, JsonValue::Null));
}

#[test]
fn primitive_spans() {
    let root = parse(" \"hi\" ").unwrap();
    assert!(matches!(root.elem, JsonValue::Str("hi")));
    assert_eq!(root.span, 1..5);
    let root = parse("42").unwrap();
    assert!(matches!(root.elem, JsonValue::Num(42)));
    assert_eq!(root.span, 0..2);
}

#[test]
fn array_keeps_last_element() {
    let root = parse("[1,2,3]").unwrap();
    match &root.elem {
        JsonValue::Array(items) => {
            assert_eq!(items.len(), 3);
            assert!(matches!(items[2].elem, JsonValue::Num(3)));
            assert_eq!(items[2].span, 5..6);
        }
        _ => panic!("expected an array"),
    }
    assert_eq!(root.span, 0..7);
}

#[test]
fn trailing_commas_are_accepted() {
    match parse("[1,]").unwrap().elem {
        JsonValue::Array(items) => assert_eq!(items.len(), 1),
        _ => panic!("expected an array"),
    }
    match parse("{\"a\":1,}").unwrap().elem {
        JsonValue::Object(ms) => assert_eq!(ms.len(), 1),
        _ => panic!("expected an object"),
    }
}

#[test]
fn missing_comma_needs_closing_bracket() {
    let err = parse("[1 2]").unwrap_err();
    assert!(matches!(err.elem.reason, ErrReason::Expected("right bracket")));
    assert_eq!(err.span, 3..4);
}

#[test]
fn lone_comma_in_array_is_rejected() {
    let err = parse("[,]").unwrap_err();
    assert!(matches!(err.elem.reason, ErrReason::Expected("right bracket")));
    assert_eq!(err.span, 1..2);
}

#[test]
fn missing_colon_is_rejected() {
    let err = parse("{\"a\" 1}").unwrap_err();
    assert!(matches!(err.elem.reason, ErrReason::Expected("colon")));
    assert_eq!(err.span, 5..6);
}

#[test]
fn missing_member_value_is_rejected() {
    let err = parse("{\"a\":}").unwrap_err();
    assert!(matches!(err.elem.reason, ErrReason::Expected("a value")));
    assert_eq!(err.span, 5..6);
}

#[test]
fn unclosed_object_is_rejected() {
    let err = parse("{\"a\":1").unwrap_err();
    assert!(matches!(err.elem.reason, ErrReason::Expected("right brace")));
    assert_eq!(err.span, 6..6);
}

#[test]
fn error_inside_array_element_propagates() {
    let err = parse("[[1}]").unwrap_err();
    assert!(matches!(err.elem.reason, ErrReason::Expected("right bracket")));
    assert_eq!(err.span, 3..4);
}

#[test]
fn empty_document_expects_a_value() {
    let err = parse("").unwrap_err();
    assert!(matches!(err.elem.reason, ErrReason::Expected("a value")));
    assert_eq!(err.span, 0..0);
}

#[test]
fn value_reports_missing_value() {
    let toks = Lexer::new("]").tokenize().unwrap();
    let mut p = Parser::new(toks);
    let err = p.value().unwrap_err();
    assert!(matches!(err.elem.reason, ErrReason::Expected("a value")));
    assert_eq!(err.span, 0..1);
}

#[test]
fn value_then_document_end() {
    let toks = Lexer::new("[true] false").tokenize().unwrap();
    let mut p = Parser::new(toks);
    let v = p.value().unwrap();
    assert_eq!(v.span, 0..6);
    let rest = p.json().unwrap();
    assert!(matches!(rest.elem, JsonValue::Bool(false)));
    assert_eq!(rest.span, 7..12);
}
