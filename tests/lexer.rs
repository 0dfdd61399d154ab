use real_db::{match_token_kind, tokenize, TokenKind};

#[test]
fn keywords_ignore_case() {
    assert_eq!(match_token_kind("SET"), TokenKind::SetField);
    assert_eq!(match_token_kind("Select_All"), TokenKind::SelectAll);
    assert_eq!(match_token_kind("+"), TokenKind::Plus);
    assert_eq!(match_token_kind("-"), TokenKind::Minus);
    assert_eq!(match_token_kind("RANGE"), TokenKind::Range);
    assert_eq!(match_token_kind("End"), TokenKind::End);
}

#[test]
fn literals_are_classified() {
    assert_eq!(match_token_kind("\"hello\""), TokenKind::String);
    assert_eq!(match_token_kind("-12"), TokenKind::Int);
    assert_eq!(match_token_kind("+7"), TokenKind::Int);
    assert_eq!(match_token_kind("1.5"), TokenKind::Float);
    assert_eq!(match_token_kind("1e10"), TokenKind::Float);
    assert_eq!(match_token_kind("99999999999999999999"), TokenKind::Float);
    assert_eq!(match_token_kind("INF"), TokenKind::Float);
    assert_eq!(match_token_kind("@users:12"), TokenKind::Id);
    assert_eq!(match_token_kind("@users:_"), TokenKind::Id);
    assert_eq!(match_token_kind("@a:b:c"), TokenKind::Word);
    assert_eq!(match_token_kind("hello"), TokenKind::Word);
    assert_eq!(match_token_kind("."), TokenKind::Word);
    assert_eq!(match_token_kind("1e"), TokenKind::Word);
}

#[test]
fn tokens_carry_words_and_positions() {
    let tokens = tokenize("set \"a b\"\n  drop".to_string()).unwrap();
    let words: Vec<&str> = tokens.iter().map(|t| t.word.as_str()).collect();
    assert_eq!(words, vec!["set", "\"a b\"", "drop"]);
    assert_eq!(tokens[0].kind, TokenKind::SetField);
    assert_eq!(tokens[1].kind, TokenKind::String);
    assert_eq!((tokens[0].line, tokens[0].col), (1, 4));
    assert_eq!(tokens[2].line, 2);
}

#[test]
fn comments_are_stripped() {
    let tokens = tokenize("select # a comment\r\ndrop".to_string()).unwrap();
    let words: Vec<&str> = tokens.iter().map(|t| t.word.as_str()).collect();
    assert_eq!(words, vec!["select", "drop"]);
}

#[test]
fn empty_text_has_no_tokens() {
    assert!(tokenize(String::new()).unwrap().is_empty());
    assert!(tokenize("   \n\r\n".to_string()).unwrap().is_empty());
}

#[test]
fn quotes_inside_comments_are_ignored() {
    let with_comment = tokenize("#\"\na b".to_string()).unwrap();
    let words: Vec<&str> = with_comment.iter().map(|t| t.word.as_str()).collect();
    assert_eq!(words, vec!["a", "b"]);
    let tokens = tokenize("set # say \"hi\na b \"c d\"".to_string()).unwrap();
    let words: Vec<&str> = tokens.iter().map(|t| t.word.as_str()).collect();
    assert_eq!(words, vec!["set", "a", "b", "\"c d\""]);
}
