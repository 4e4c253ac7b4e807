use lime::lexer::Lexer;
use lime::lexer::LexerError;
use lime::lexer::Token;

/// Collect every token of `src`, panicking on a lexer failure.
fn toks(src: &str) -> Vec<Token> {
    let mut lx = Lexer::new(src.as_bytes().to_vec());
    let mut out = Vec::new();
    loop {
        match lx.next() {
            Ok(t) => out.push(t),
            Err(LexerError::EndOfInput) => return out,
            Err(e) => panic!("unexpected lexer error: {:?}", e),
        }
    }
}

/// A comparable fingerprint of a token: kind tag, text, line, column.
fn sig(t: &Token) -> (u8, Vec<u8>, usize, usize) {
    match t {
        Token::ListOpen { line, col } => (0, Vec::new(), *line, *col),
        Token::ListClose { line, col } => (1, Vec::new(), *line, *col),
        Token::Symbol { text, line, col } => (2, text.clone(), *line, *col),
        Token::Str { text, line, col } => (3, text.clone(), *line, *col),
        Token::Number { text, line, col } => (4, text.clone(), *line, *col),
    }
}

#[test]
fn single_symbol() {
    let ts = toks("foo");
    assert_eq!(ts.len(), 1);
    assert_eq!(sig(&ts[0]), (2, b"foo".to_vec(), 1, 1));
}

#[test]
fn simple_number() {
    let ts = toks("42");
    assert_eq!(sig(&ts[0]), (4, b"42".to_vec(), 1, 1));
}

#[test]
fn decimal_number() {
    let ts = toks("2.5");
    assert_eq!(sig(&ts[0]), (4, b"2.5".to_vec(), 1, 1));
}

#[test]
fn lone_dot_is_number() {
    let ts = toks(".");
    assert_eq!(sig(&ts[0]), (4, b".".to_vec(), 1, 1));
}

#[test]
fn trailing_dot_is_number() {
    let ts = toks("1.");
    assert_eq!(sig(&ts[0]), (4, b"1.".to_vec(), 1, 1));
}

#[test]
fn second_dot_makes_symbol() {
    let ts = toks("1.2.3");
    assert_eq!(ts.len(), 1);
    assert_eq!(sig(&ts[0]), (2, b"1.2.3".to_vec(), 1, 1));
}

#[test]
fn digit_then_letter_is_symbol() {
    let ts = toks("1a2");
    assert_eq!(sig(&ts[0]), (2, b"1a2".to_vec(), 1, 1));
}

#[test]
fn string_token() {
    let ts = toks("\"hi\"");
    assert_eq!(sig(&ts[0]), (3, b"hi".to_vec(), 1, 1));
}

#[test]
fn empty_string_token() {
    let ts = toks("\"\"");
    assert_eq!(sig(&ts[0]), (3, b"".to_vec(), 1, 1));
}

#[test]
fn string_keeps_spaces() {
    let ts = toks("\"a b\"");
    assert_eq!(sig(&ts[0]), (3, b"a b".to_vec(), 1, 1));
}

#[test]
fn quote_inside_symbol_run() {
    let ts = toks("ab\"cd");
    assert_eq!(ts.len(), 1);
    assert_eq!(sig(&ts[0]), (2, b"ab\"cd".to_vec(), 1, 1));
}

#[test]
fn unclosed_string_at_end_of_input() {
    let mut lx = Lexer::new(b"\"hello".to_vec());
    match lx.next() {
        Err(LexerError::UnclosedString { line, col }) => {
            assert_eq!((line, col), (1, 1));
        }
        other => panic!("expected unclosed string, got {:?}", other),
    }
}

#[test]
fn unclosed_string_at_line_feed() {
    let mut lx = Lexer::new(b"\"ab\nc".to_vec());
    match lx.next() {
        Err(LexerError::UnclosedString { line, col }) => {
            assert_eq!((line, col), (1, 1));
        }
        other => panic!("expected unclosed string, got {:?}", other),
    }
}

#[test]
fn parens_positions() {
    let ts = toks("()");
    assert_eq!(ts.len(), 2);
    assert_eq!(sig(&ts[0]), (0, Vec::new(), 1, 1));
    assert_eq!(sig(&ts[1]), (1, Vec::new(), 1, 2));
}

#[test]
fn crlf_lexes_like_lf() {
    let a: Vec<_> = toks("a\r\nb").iter().map(sig).collect();
    let b: Vec<_> = toks("a\nb").iter().map(sig).collect();
    assert_eq!(a, b);
    assert_eq!(a[0], (2, b"a".to_vec(), 1, 1));
    assert_eq!(a[1], (2, b"b".to_vec(), 2, 1));
}

#[test]
fn carriage_return_moves_nothing() {
    let ts = toks("\ra");
    assert_eq!(sig(&ts[0]), (2, b"a".to_vec(), 1, 1));
}

#[test]
fn positions_across_lines() {
    let ts = toks("(\n  foo)");
    assert_eq!(sig(&ts[0]), (0, Vec::new(), 1, 1));
    assert_eq!(sig(&ts[1]), (2, b"foo".to_vec(), 2, 3));
    assert_eq!(sig(&ts[2]), (1, Vec::new(), 2, 6));
}

#[test]
fn spaces_and_tabs_advance_columns() {
    let ts = toks(" \t(");
    assert_eq!(sig(&ts[0]), (0, Vec::new(), 1, 3));
}

#[test]
fn tab_separates_symbols() {
    let ts = toks("a\tb");
    assert_eq!(ts.len(), 2);
    assert_eq!(sig(&ts[0]), (2, b"a".to_vec(), 1, 1));
    assert_eq!(sig(&ts[1]), (2, b"b".to_vec(), 1, 3));
}

#[test]
fn end_of_input_is_repeatable() {
    let mut lx = Lexer::new(b" ".to_vec());
    assert!(matches!(lx.next(), Err(LexerError::EndOfInput)));
    assert!(matches!(lx.next(), Err(LexerError::EndOfInput)));
}

#[test]
fn relexing_token_text_reproduces_it() {
    let ts = toks("(add 12 x.y \"s\")");
    for t in &ts {
        match t {
            Token::Symbol { text, .. } => {
                let again = toks(std::str::from_utf8(text).unwrap());
                assert_eq!(again.len(), 1);
                assert_eq!(sig(&again[0]).0, 2);
                assert_eq!(&sig(&again[0]).1, text);
            }
            Token::Number { text, .. } => {
                let again = toks(std::str::from_utf8(text).unwrap());
                assert_eq!(again.len(), 1);
                assert_eq!(sig(&again[0]).0, 4);
                assert_eq!(&sig(&again[0]).1, text);
            }
            Token::ListOpen { .. } => {
                let again = toks("(");
                assert!(matches!(again[0], Token::ListOpen { .. }));
            }
            Token::ListClose { .. } => {
                let again = toks(")");
                assert!(matches!(again[0], Token::ListClose { .. }));
            }
            Token::Str { .. } => {}
        }
    }
}

#[test]
fn lexer_error_message_bytes() {
    let e = LexerError::UnclosedString { line: 3, col: 7 };
    assert_eq!(e.message(), b"ERROR:3:7: Missing quote".to_vec());
    assert_eq!(LexerError::EndOfInput.message(), Vec::<u8>::new());
}
