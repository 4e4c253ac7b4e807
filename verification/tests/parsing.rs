use lime::lexer::Lexer;
use lime::parser::parse;
use lime::parser::AstNode;
use lime::parser::ParserError;

fn parse_str(src: &str) -> Result<Vec<AstNode>, ParserError> {
    let mut lx = Lexer::new(src.as_bytes().to_vec());
    parse(&mut lx)
}

/// Structural depth of a forest: atoms are flat, a list is one deeper than
/// its deepest element.
fn depth(nodes: &[AstNode]) -> usize {
    let mut d = 0;
    for n in nodes {
        if let AstNode::List { elements, .. } = n {
            let nd = 1 + depth(elements);
            if nd > d {
                d = nd;
            }
        }
    }
    d
}

/// Number of list nodes at nesting level `l`, top-level nodes being at
/// level 1.
fn lists_at(nodes: &[AstNode], l: usize) -> usize {
    let mut count = 0;
    for n in nodes {
        if let AstNode::List { elements, .. } = n {
            if l == 1 {
                count += 1;
            }
            if l > 1 {
                count += lists_at(elements, l - 1);
            }
        }
    }
    count
}

#[test]
fn empty_input_is_empty_program() {
    let program = parse_str("").unwrap();
    assert_eq!(program.len(), 0);
}

#[test]
fn blank_input_is_empty_program() {
    let program = parse_str(" \t\r\n ").unwrap();
    assert_eq!(program.len(), 0);
}

#[test]
fn empty_list() {
    let program = parse_str("()").unwrap();
    assert_eq!(program.len(), 1);
    match &program[0] {
        AstNode::List { elements, line, col } => {
            assert_eq!(elements.len(), 0);
            assert_eq!((*line, *col), (1, 1));
        }
        other => panic!("expected a list, got {:?}", other),
    }
}

#[test]
fn add_example() {
    let program = parse_str("(add 1 2.5)").unwrap();
    assert_eq!(program.len(), 1);
    match &program[0] {
        AstNode::List { elements, .. } => {
            assert_eq!(elements.len(), 3);
            match &elements[0] {
                AstNode::Symbol { value, .. } => assert_eq!(value, &b"add".to_vec()),
                other => panic!("expected symbol, got {:?}", other),
            }
            match &elements[1] {
                AstNode::Number { value, .. } => assert_eq!(value, &b"1".to_vec()),
                other => panic!("expected number, got {:?}", other),
            }
            match &elements[2] {
                AstNode::Number { value, .. } => assert_eq!(value, &b"2.5".to_vec()),
                other => panic!("expected number, got {:?}", other),
            }
        }
        other => panic!("expected a list, got {:?}", other),
    }
}

#[test]
fn missing_outer_close() {
    match parse_str("(a (b)") {
        Err(ParserError::UnclosedList { line, col }) => {
            assert_eq!((line, col), (1, 7));
        }
        other => panic!("expected unclosed list, got {:?}", other),
    }
}

#[test]
fn extraneous_close() {
    match parse_str("a)") {
        Err(ParserError::ExtraneousClosingList { line, col }) => {
            assert_eq!((line, col), (1, 2));
        }
        other => panic!("expected extraneous closing, got {:?}", other),
    }
}

#[test]
fn unclosed_string_propagates() {
    match parse_str("(\"x") {
        Err(ParserError::UnclosedString { line, col }) => {
            assert_eq!((line, col), (1, 2));
        }
        other => panic!("expected unclosed string, got {:?}", other),
    }
}

#[test]
fn depth_matches_nesting() {
    let program = parse_str("(a (b (c)) d)").unwrap();
    assert_eq!(depth(&program), 3);
    let flat = parse_str("a 1 \"s\"").unwrap();
    assert_eq!(depth(&flat), 0);
    let one = parse_str("()").unwrap();
    assert_eq!(depth(&one), 1);
}

#[test]
fn list_counts_per_level() {
    let program = parse_str("(() (())) ()").unwrap();
    assert_eq!(lists_at(&program, 1), 2);
    assert_eq!(lists_at(&program, 2), 2);
    assert_eq!(lists_at(&program, 3), 1);
    assert_eq!(lists_at(&program, 4), 0);
}

#[test]
fn top_level_atoms() {
    let program = parse_str("a 1 \"s\"").unwrap();
    assert_eq!(program.len(), 3);
    assert!(matches!(&program[0], AstNode::Symbol { .. }));
    assert!(matches!(&program[1], AstNode::Number { .. }));
    assert!(matches!(&program[2], AstNode::Str { .. }));
}

#[test]
fn node_positions() {
    let program = parse_str("(a\nb)").unwrap();
    match &program[0] {
        AstNode::List { elements, line, col } => {
            assert_eq!((*line, *col), (1, 1));
            match &elements[0] {
                AstNode::Symbol { value, line, col } => {
                    assert_eq!(value, &b"a".to_vec());
                    assert_eq!((*line, *col), (1, 2));
                }
                other => panic!("expected symbol, got {:?}", other),
            }
            match &elements[1] {
                AstNode::Symbol { value, line, col } => {
                    assert_eq!(value, &b"b".to_vec());
                    assert_eq!((*line, *col), (2, 1));
                }
                other => panic!("expected symbol, got {:?}", other),
            }
        }
        other => panic!("expected a list, got {:?}", other),
    }
}

#[test]
fn nested_empty_lists() {
    let program = parse_str("((()))").unwrap();
    assert_eq!(program.len(), 1);
    assert_eq!(depth(&program), 3);
}

#[test]
fn parse_drains_the_lexer() {
    let mut lx = Lexer::new(b"(a) b".to_vec());
    let first = parse(&mut lx).unwrap();
    assert_eq!(first.len(), 2);
    let second = parse(&mut lx).unwrap();
    assert_eq!(second.len(), 0);
}

#[test]
fn crlf_parses_like_lf() {
    let a = parse_str("(a\r\nb)").unwrap();
    let b = parse_str("(a\nb)").unwrap();
    assert_eq!(depth(&a), depth(&b));
    match (&a[0], &b[0]) {
        (
            AstNode::List { elements: ea, .. },
            AstNode::List { elements: eb, .. },
        ) => {
            assert_eq!(ea.len(), eb.len());
        }
        other => panic!("expected two lists, got {:?}", other),
    }
}
