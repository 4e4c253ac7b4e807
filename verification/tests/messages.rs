use lime::lexer::Lexer;
use lime::parser::parse;
use lime::parser::ParserError;

fn parse_err(src: &str) -> ParserError {
    let mut lx = Lexer::new(src.as_bytes().to_vec());
    match parse(&mut lx) {
        Err(e) => e,
        Ok(program) => panic!("expected an error, got {:?}", program),
    }
}

#[test]
fn unclosed_string_message() {
    let e = parse_err("\"q");
    assert_eq!(e.message(), b"ERROR:1:1: Missing closing for string!".to_vec());
}

#[test]
fn unclosed_list_message() {
    let e = parse_err("(a (b)");
    assert_eq!(e.message(), b"ERROR:1:7: Missing closing for list!".to_vec());
}

#[test]
fn extraneous_close_message() {
    let e = parse_err("a)");
    assert_eq!(
        e.message(),
        b"ERROR:1:2: Extraneous closing for list found".to_vec()
    );
}

#[test]
fn multi_digit_positions() {
    let e = ParserError::UnclosedList { line: 12, col: 345 };
    assert_eq!(e.message(), b"ERROR:12:345: Missing closing for list!".to_vec());
    let e = ParserError::UnclosedString { line: 10, col: 100 };
    assert_eq!(
        e.message(),
        b"ERROR:10:100: Missing closing for string!".to_vec()
    );
}

#[test]
fn error_position_on_later_line() {
    let e = parse_err("(a\nb\n\"x");
    assert_eq!(e.message(), b"ERROR:3:1: Missing closing for string!".to_vec());
}
