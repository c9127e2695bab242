use rlox::{Lox, LoxErrorKind, LoxError, Parser, SyntaxProblem};

fn kinds_of(results: &[Result<rlox::AstNode, LoxError>]) -> Vec<Result<usize, LoxErrorKind>> {
    results
        .iter()
        .map(|r| match r {
            Ok(node) => Ok(node.tokens.len()),
            Err(e) => Err(e.kind),
        })
        .collect()
}

#[test]
fn units_end_at_semicolons_and_outer_braces() {
    let mut parser = Parser::new();
    let units = parser.assemble_chunk(b"a = 1; { b; (c); } d;");
    assert_eq!(kinds_of(&units), vec![Ok(4), Ok(8), Ok(2)]);
}

#[test]
fn open_bracket_asks_for_more_input() {
    let mut parser = Parser::new();
    let units = parser.assemble_chunk(b"print (1 +\n");
    assert_eq!(kinds_of(&units), vec![Err(LoxErrorKind::UnexpectedEof)]);
    let units = parser.assemble_chunk(b"2);\n");
    assert_eq!(kinds_of(&units), vec![Ok(7)]);
}

#[test]
fn semicolon_inside_brackets_does_not_end_a_unit() {
    let mut parser = Parser::new();
    let units = parser.assemble_chunk(b"{ a; b;");
    assert_eq!(kinds_of(&units), vec![Err(LoxErrorKind::UnexpectedEof)]);
}

#[test]
fn unmatched_closing_bracket_is_an_error_and_clears() {
    let mut parser = Parser::new();
    let units = parser.assemble_chunk(b"a; ( } b;");
    assert_eq!(
        kinds_of(&units),
        vec![
            Ok(2),
            Err(LoxErrorKind::SyntaxError(SyntaxProblem::UnmatchedClosing))
        ]
    );
    let units = parser.assemble_chunk(b"c;");
    assert_eq!(kinds_of(&units), vec![Ok(2)]);
}

#[test]
fn batch_run_succeeds_on_complete_script() {
    let mut lox = Lox::new();
    let mut out = Vec::new();
    lox.run(b"var a = 1;\nprint a;\n", &mut out).unwrap();
    assert!(out.is_empty());
}

#[test]
fn batch_run_stops_at_first_error() {
    let mut lox = Lox::new();
    let mut out = Vec::new();
    let err = lox.run(b"a; @ b;", &mut out).unwrap_err();
    assert_eq!(
        err.kind,
        LoxErrorKind::SyntaxError(SyntaxProblem::UnexpectedCharacter)
    );
    let err = lox.run(b"a; (b;", &mut out).unwrap_err();
    assert_eq!(err.kind, LoxErrorKind::UnexpectedEof);
    let err = lox.run(b") a;", &mut out).unwrap_err();
    assert_eq!(
        err.kind,
        LoxErrorKind::SyntaxError(SyntaxProblem::UnmatchedClosing)
    );
}

#[test]
fn interactive_open_paren_then_end_of_input() {
    let mut lox = Lox::new();
    let (output, errors) = lox.run_interactive(b"(\n");
    assert_eq!(output, b"> . ".to_vec());
    assert!(errors.is_empty());
}

#[test]
fn interactive_complete_lines_and_errors() {
    let mut lox = Lox::new();
    let (output, errors) = lox.run_interactive(b"a;\n@\nb;");
    assert_eq!(output, b"> > > \n> \n".to_vec());
    assert_eq!(errors.len(), 1);
    assert_eq!(errors[0].kind_text(), "SyntaxError: unexpected character");
}

#[test]
fn interactive_recovers_after_error_inside_construct() {
    let mut lox = Lox::new();
    let (output, errors) = lox.run_interactive(b"{ a;\n) \n b;\n");
    assert_eq!(output, b"> . > > \n".to_vec());
    assert_eq!(errors.len(), 1);
    assert_eq!(
        errors[0].kind,
        LoxErrorKind::SyntaxError(SyntaxProblem::UnmatchedClosing)
    );
}

#[test]
fn batch_and_interactive_agree_on_a_valid_script() {
    let script: &[u8] = b"var a = 1;\nfun f(x) {\n  print x;\n}\nf(a\n);\n";
    let mut lox = Lox::new();
    let mut batch = Vec::new();
    lox.run(script, &mut batch).unwrap();
    let (output, errors) = lox.run_interactive(script);
    assert!(errors.is_empty());
    let without_prompts: Vec<u8> = output
        .iter()
        .copied()
        .filter(|b| *b != b'>' && *b != b'.' && *b != b' ' && *b != b'\n')
        .collect();
    assert_eq!(batch, without_prompts);
    assert_eq!(output, b"> > . . > . > \n".to_vec());
}

#[test]
fn step_by_step_session() {
    let mut lox = Lox::new();
    let mut output = Vec::new();
    let mut errors = Vec::new();
    let mut session = lox.begin_session(&mut output);
    lox.feed_line(&mut session, b"(\n", &mut output, &mut errors);
    lox.feed_line(&mut session, b");\n", &mut output, &mut errors);
    lox.end_session(&session, &mut output);
    assert_eq!(output, b"> . > \n".to_vec());
    assert!(errors.is_empty());
}

#[test]
fn error_text_and_context() {
    let err = LoxError::new(LoxErrorKind::UnexpectedEof);
    assert!(err.is_unexpected_eof());
    assert_eq!(err.kind_text(), "UnexpectedEof");
    let err = LoxError::new(LoxErrorKind::SyntaxError(SyntaxProblem::UnmatchedClosing))
        .chain_err("while reading line 3".to_string());
    assert!(!err.is_unexpected_eof());
    assert_eq!(err.context, vec!["while reading line 3".to_string()]);
    assert_eq!(err.kind_text(), "SyntaxError: unmatched closing bracket");
    assert_eq!(
        SyntaxProblem::UnexpectedCharacter.description(),
        "unexpected character"
    );
}

#[test]
fn node_iterator_hands_out_units_in_order() {
    let mut parser = Parser::new();
    let mut it = parser.iter_ast_nodes(b"a; b c; )");
    assert_eq!(it.next().unwrap().unwrap().tokens.len(), 2);
    assert_eq!(it.next().unwrap().unwrap().tokens.len(), 3);
    assert_eq!(
        it.next().unwrap().unwrap_err().kind,
        LoxErrorKind::SyntaxError(SyntaxProblem::UnmatchedClosing)
    );
    assert!(it.next().is_none());
    assert!(it.next().is_none());
}

#[test]
fn render_puts_outer_context_first() {
    let err = LoxError::new(LoxErrorKind::SyntaxError(SyntaxProblem::UnexpectedCharacter))
        .chain_err("in line 2".to_string())
        .chain_err("in script.lox".to_string());
    assert_eq!(
        err.render(),
        b"in script.lox: in line 2: SyntaxError: unexpected character".to_vec()
    );
    let bare = LoxError::new(LoxErrorKind::UnexpectedEof);
    assert_eq!(bare.render(), b"UnexpectedEof".to_vec());
}
