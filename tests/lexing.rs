use json_parser::error::ErrReason;
use json_parser::lexer::Lexer;
use json_parser::tokens::{Spanned, Token};

fn lex(src: &str) -> Vec<Spanned<Token<'_>>> {
    Lexer::new(src).tokenize().expect("lexing succeeds")
}

#[test]
fn tokenize_empty_object() {
    let toks = lex("{}");
    assert_eq!(toks.len(), 3);
    assert!(matches!(toks[0].elem, Token::LBrace));
    assert_eq!(toks[0].span, 0..1);
    assert!(matches!(toks[1].elem, Token::RBrace));
    assert_eq!(toks[1].span, 1..2);
    assert!(matches!(toks[2].elem, Token::EOF));
    assert_eq!(toks[2].span, 2..2);
}

#[test]
fn tokenize_number_array() {
    let toks = lex("[1,2]");
    assert_eq!(toks.len(), 6);
    assert!(matches!(toks[0].elem, Token::LBracket));
    assert!(matches!(toks[1].elem, Token::Num(1)));
    assert_eq!(toks[1].span, 1..2);
    assert!(matches!(toks[2].elem, Token::Comma));
    assert!(matches!(toks[3].elem, Token::Num(2)));
    assert_eq!(toks[3].span, 3..4);
    assert!(matches!(toks[4].elem, Token::RBracket));
    assert!(matches!(toks[5].elem, Token::EOF));
    assert_eq!(toks[5].span, 5..5);
}

#[test]
fn tokenize_empty_input() {
    let toks = lex("");
    assert_eq!(toks.len(), 1);
    assert!(matches!(toks[0].elem, Token::EOF));
    assert_eq!(toks[0].span, 0..0);
}

#[test]
fn sentinel_follows_last_token_not_trailing_space() {
    let toks = lex("  7  ");
    assert_eq!(toks.len(), 2);
    assert!(matches!(toks[0].elem, Token::Num(7)));
    assert_eq!(toks[0].span, 2..3);
    assert_eq!(toks[1].span, 3..3);
}

#[test]
fn tokenize_multi_digit_number() {
    let toks = lex("12345");
    assert!(matches!(toks[0].elem, Token::Num(12345)));
    assert_eq!(toks[0].span, 0..5);
}

#[test]
fn tokenize_keywords() {
    let toks = lex("true false null");
    assert!(matches!(toks[0].elem, Token::Bool(true)));
    assert_eq!(toks[0].span, 0..4);
    assert!(matches!(toks[1].elem, Token::Bool(false)));
    assert_eq!(toks[1].span, 5..10);
    assert!(matches!(toks[2].elem, Token::Null));
    assert_eq!(toks[2].span, 11..15);
    assert_eq!(toks[3].span, 15..15);
}

#[test]
fn tokenize_string_keeps_text_between_quotes() {
    let toks = lex("\"a\\b c\"");
    match toks[0].elem {
        Token::Str(s) => assert_eq!(s, "a\\b c"),
        _ => panic!("expected a string token"),
    }
    assert_eq!(toks[0].span, 0..7);
}

#[test]
fn tokenize_string_spans_count_bytes() {
    let toks = lex("\"é\" 1");
    match toks[0].elem {
        Token::Str(s) => assert_eq!(s, "é"),
        _ => panic!("expected a string token"),
    }
    assert_eq!(toks[0].span, 0..4);
    assert_eq!(toks[1].span, 5..6);
}

#[test]
fn tokenize_structural_characters() {
    let toks = lex("[]{}:,");
    assert!(matches!(toks[0].elem, Token::LBracket));
    assert!(matches!(toks[1].elem, Token::RBracket));
    assert!(matches!(toks[2].elem, Token::LBrace));
    assert!(matches!(toks[3].elem, Token::RBrace));
    assert!(matches!(toks[4].elem, Token::Colon));
    assert!(matches!(toks[5].elem, Token::Comma));
    assert_eq!(toks[5].span, 5..6);
}

#[test]
fn unterminated_string_fails() {
    let err = Lexer::new("\"abc").tokenize().unwrap_err();
    assert!(matches!(err.elem.reason, ErrReason::UnclosedString));
    assert_eq!(err.span.end, 4);
    assert_eq!(err.span.start, 0);
}

#[test]
fn unknown_keyword_fails() {
    let err = Lexer::new("xyz").tokenize().unwrap_err();
    match err.elem.reason {
        ErrReason::UnknownKeyword(w) => assert_eq!(w, "xyz"),
        _ => panic!("expected an unknown keyword"),
    }
    assert_eq!(err.span, 0..3);
}

#[test]
fn keyword_is_case_sensitive() {
    let err = Lexer::new("[True]").tokenize().unwrap_err();
    match err.elem.reason {
        ErrReason::UnknownKeyword(w) => assert_eq!(w, "True"),
        _ => panic!("expected an unknown keyword"),
    }
    assert_eq!(err.span, 1..5);
}

#[test]
fn unexpected_character_fails() {
    let err = Lexer::new("[1, @]").tokenize().unwrap_err();
    assert!(matches!(err.elem.reason, ErrReason::UnexpectedChar('@')));
    assert_eq!(err.span, 4..5);
}

#[test]
fn unexpected_wide_character_spans_its_bytes() {
    let err = Lexer::new("é").tokenize().unwrap_err();
    assert!(matches!(err.elem.reason, ErrReason::UnexpectedChar('é')));
    assert_eq!(err.span, 0..2);
}

#[test]
fn minus_sign_is_not_a_number() {
    let err = Lexer::new("-1").tokenize().unwrap_err();
    assert!(matches!(err.elem.reason, ErrReason::UnexpectedChar('-')));
}

#[test]
fn leading_zeros_are_kept_in_the_span() {
    let toks = lex("007");
    assert!(matches!(toks[0].elem, Token::Num(7)));
    assert_eq!(toks[0].span, 0..3);
}

#[test]
fn all_ascii_whitespace_is_skipped() {
    let toks = lex("\t\n\r\x0c[ ]\n");
    assert_eq!(toks.len(), 3);
    assert_eq!(toks[0].span, 4..5);
    assert_eq!(toks[1].span, 6..7);
    assert_eq!(toks[2].span, 7..7);
}

#[test]
fn number_followed_by_letters_fails_on_the_word() {
    let err = Lexer::new("12ab").tokenize().unwrap_err();
    match err.elem.reason {
        ErrReason::UnknownKeyword(w) => assert_eq!(w, "ab"),
        _ => panic!("expected an unknown keyword"),
    }
    assert_eq!(err.span, 2..4);
}
