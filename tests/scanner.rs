use rlox::{LoxErrorKind, LoxResult, SyntaxProblem, Token, TokenKind, Tokenizer};

fn scan(input: &[u8]) -> Vec<LoxResult<Token>> {
    let mut tokenizer = Tokenizer::new();
    tokenizer.tokenize(input)
}

fn kinds(input: &[u8]) -> Vec<TokenKind> {
    scan(input)
        .into_iter()
        .map(|r| r.expect("no error expected").kind)
        .collect()
}

#[test]
fn single_punctuation_bytes() {
    let cases: Vec<(u8, TokenKind)> = vec![
        (b'(', TokenKind::LeftParen),
        (b')', TokenKind::RightParen),
        (b'{', TokenKind::LeftBrace),
        (b'}', TokenKind::RightBrace),
        (b',', TokenKind::Comma),
        (b'.', TokenKind::Dot),
        (b'-', TokenKind::Minus),
        (b'+', TokenKind::Plus),
        (b';', TokenKind::Semicolon),
        (b'/', TokenKind::Slash),
        (b'*', TokenKind::Star),
        (b'!', TokenKind::Bang),
        (b'=', TokenKind::Equal),
        (b'<', TokenKind::Less),
        (b'>', TokenKind::Greater),
    ];
    for (byte, kind) in cases {
        let tokens = scan(&[byte]);
        assert_eq!(tokens.len(), 1);
        let token = tokens[0].as_ref().unwrap();
        assert_eq!(token.kind, kind);
        assert_eq!((token.line, token.column), (1, 1));
        assert!(token.text.is_empty());
    }
}

#[test]
fn combined_operators_are_one_token() {
    assert_eq!(kinds(b"!="), vec![TokenKind::BangEqual]);
    assert_eq!(kinds(b"=="), vec![TokenKind::EqualEqual]);
    assert_eq!(kinds(b"<="), vec![TokenKind::LessEqual]);
    assert_eq!(kinds(b">="), vec![TokenKind::GreaterEqual]);
    assert_eq!(kinds(b"= ="), vec![TokenKind::Equal, TokenKind::Equal]);
    assert_eq!(kinds(b"!=="), vec![TokenKind::BangEqual, TokenKind::Equal]);
}

#[test]
fn blanks_between_punctuation_make_no_tokens() {
    let tokens = scan(b"( \t\n  )");
    assert_eq!(tokens.len(), 2);
    let first = tokens[0].as_ref().unwrap();
    let second = tokens[1].as_ref().unwrap();
    assert_eq!(first.kind, TokenKind::LeftParen);
    assert_eq!(second.kind, TokenKind::RightParen);
    assert_eq!((first.line, first.column), (1, 1));
    assert_eq!((second.line, second.column), (2, 3));
}

#[test]
fn empty_input_scans_to_nothing() {
    assert!(scan(b"").is_empty());
    assert!(scan(b" \n\t").is_empty());
}

#[test]
fn unexpected_byte_seals_the_sequence() {
    let tokens = scan(b"@ ( )");
    assert_eq!(tokens.len(), 1);
    let err = tokens[0].as_ref().unwrap_err();
    assert_eq!(
        err.kind,
        LoxErrorKind::SyntaxError(SyntaxProblem::UnexpectedCharacter)
    );
    let tokens = scan(b"( # )");
    assert_eq!(tokens.len(), 2);
    assert!(tokens[0].is_ok());
    assert!(tokens[1].is_err());
}

#[test]
fn iterator_yields_nothing_after_an_error() {
    let mut tokenizer = Tokenizer::new();
    let mut it = tokenizer.iter_tokens(b"+ @ -");
    assert_eq!(it.next().unwrap().unwrap().kind, TokenKind::Plus);
    assert!(it.next().unwrap().is_err());
    assert!(it.next().is_none());
    assert!(it.next().is_none());
}

#[test]
fn words_and_keywords() {
    let tokens = scan(b"var answer = nil and while_1");
    let kinds: Vec<TokenKind> = tokens.iter().map(|t| t.as_ref().unwrap().kind).collect();
    assert_eq!(
        kinds,
        vec![
            TokenKind::Var,
            TokenKind::Identifier,
            TokenKind::Equal,
            TokenKind::Nil,
            TokenKind::And,
            TokenKind::Identifier,
        ]
    );
    assert_eq!(tokens[1].as_ref().unwrap().text, b"answer".to_vec());
    assert_eq!(tokens[5].as_ref().unwrap().text, b"while_1".to_vec());
    assert_eq!(tokens[1].as_ref().unwrap().column, 5);
}

#[test]
fn numbers_with_and_without_fraction() {
    let tokens = scan(b"12.5 7. 3");
    let texts: Vec<(TokenKind, Vec<u8>)> = tokens
        .into_iter()
        .map(|t| {
            let t = t.unwrap();
            (t.kind, t.text)
        })
        .collect();
    assert_eq!(
        texts,
        vec![
            (TokenKind::Number, b"12.5".to_vec()),
            (TokenKind::Number, b"7".to_vec()),
            (TokenKind::Dot, vec![]),
            (TokenKind::Number, b"3".to_vec()),
        ]
    );
}

#[test]
fn string_literal_contents() {
    let tokens = scan(b"\"hi there\";");
    assert_eq!(tokens.len(), 2);
    let s = tokens[0].as_ref().unwrap();
    assert_eq!(s.kind, TokenKind::StringLiteral);
    assert_eq!(s.text, b"hi there".to_vec());
    assert_eq!(tokens[1].as_ref().unwrap().column, 11);
}

#[test]
fn unterminated_string_asks_for_more_and_resumes() {
    let mut tokenizer = Tokenizer::new();
    let first = tokenizer.tokenize(b"\"ab\n");
    assert_eq!(first.len(), 1);
    assert_eq!(
        first[0].as_ref().unwrap_err().kind,
        LoxErrorKind::UnexpectedEof
    );
    let second = tokenizer.tokenize(b"cd\" ;");
    assert_eq!(second.len(), 2);
    let s = second[0].as_ref().unwrap();
    assert_eq!(s.kind, TokenKind::StringLiteral);
    assert_eq!(s.text, b"ab\ncd".to_vec());
    assert_eq!((s.line, s.column), (1, 1));
    let semi = second[1].as_ref().unwrap();
    assert_eq!((semi.line, semi.column), (2, 5));
}

#[test]
fn positions_continue_across_chunks() {
    let mut tokenizer = Tokenizer::new();
    let _ = tokenizer.tokenize(b"a\n");
    let tokens = tokenizer.tokenize(b"  b");
    let b = tokens[0].as_ref().unwrap();
    assert_eq!((b.line, b.column), (2, 3));
}

#[test]
fn cursor_stops_right_after_each_lexeme() {
    let mut tokenizer = Tokenizer::new();
    let mut it = tokenizer.iter_tokens(b"  ( != < x1 \"s\" 12.5 @ ;");
    let mut stops = Vec::new();
    while let Some(_) = it.next() {
        stops.push(it.pos);
    }
    assert_eq!(stops, vec![3, 6, 8, 11, 15, 20, 22]);
}

#[test]
fn blank_only_input_moves_cursor_to_end() {
    let mut tokenizer = Tokenizer::new();
    let mut it = tokenizer.iter_tokens(b" \t\n ");
    assert!(it.next().is_none());
    assert_eq!(it.pos, 4);
}

#[test]
fn finish_hands_back_position_and_open_string() {
    let mut tokenizer = Tokenizer::new();
    let mut it = tokenizer.iter_tokens(b"a \"open\n");
    assert_eq!(it.next().unwrap().unwrap().kind, TokenKind::Identifier);
    assert!(it.next().unwrap().is_err());
    tokenizer.finish(it);
    assert_eq!((tokenizer.line, tokenizer.column), (2, 1));
    let tokens = tokenizer.tokenize(b"end\"");
    let s = tokens[0].as_ref().unwrap();
    assert_eq!(s.kind, TokenKind::StringLiteral);
    assert_eq!(s.text, b"open\nend".to_vec());
    assert_eq!((s.line, s.column), (1, 3));
}
