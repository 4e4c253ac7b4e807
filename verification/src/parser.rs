//! Parser: pulls tokens from a `Lexer` and assembles a forest of top-level
//! syntax nodes, keeping an explicit stack of open lists instead of
//! recursing.

use vstd::prelude::*;

use crate::lexer::Lexer;
use crate::lexer::LexerError;
use crate::lexer::LexState;
use crate::lexer::LexOutcome;
use crate::lexer::Token;
use crate::lexer::TokenModel;
use crate::lexer::lex_next;
use crate::lexer::lemma_lex_next_tok_bounds;
use crate::lexer::lemma_cursor_bounds;
use crate::message::error_prefix;
use crate::message::push_ascii;
use crate::message::push_prefix;
use vstd::string::StringSliceAdditionalSpecFns;

verus! {

broadcast use vstd::std_specs::vec::axiom_vec_decreases_to_view, vstd::seq::axiom_seq_index_decreases;

/// A syntax node: a list of nodes or an atom, each carrying the 1-based
/// position of its first byte. Atom payloads are the token texts.
#[derive(Debug)]
pub enum AstNode {
    List { elements: Vec<AstNode>, line: usize, col: usize },
    Symbol { value: Vec<u8>, line: usize, col: usize },
    Str { value: Vec<u8>, line: usize, col: usize },
    Number { value: Vec<u8>, line: usize, col: usize },
}

/// Mathematical model of a syntax node.
#[verifier::ext_equal]
pub enum NodeModel {
    List { elements: Seq<NodeModel>, line: int, col: int },
    Symbol { value: Seq<u8>, line: int, col: int },
    Str { value: Seq<u8>, line: int, col: int },
    Number { value: Seq<u8>, line: int, col: int },
}

pub open spec fn node_model(n: AstNode) -> NodeModel
    decreases n, 1int,
{
    match n {
        AstNode::List { elements, line, col } => NodeModel::List {
            elements: {
                proof {
                    assert(decreases_to!(n => elements));
                    assert(decreases_to!(elements => elements@));
                }
                nodes_model(elements@)
            },
            line: line as int,
            col: col as int,
        },
        AstNode::Symbol { value, line, col } => NodeModel::Symbol {
            value: value@,
            line: line as int,
            col: col as int,
        },
        AstNode::Str { value, line, col } => NodeModel::Str {
            value: value@,
            line: line as int,
            col: col as int,
        },
        AstNode::Number { value, line, col } => NodeModel::Number {
            value: value@,
            line: line as int,
            col: col as int,
        },
    }
}

pub open spec fn nodes_model(s: Seq<AstNode>) -> Seq<NodeModel>
    decreases s, 0int,
{
    if s.len() == 0 {
        Seq::empty()
    } else {
        {
            proof {
                assert(s.drop_last() == s.subrange(0, s.len() - 1));
                assert(decreases_to!(s => s.subrange(0, s.len() - 1)));
                assert(decreases_to!(s => s[s.len() - 1]));
            }
            nodes_model(s.drop_last()).push(node_model(s.last()))
        }
    }
}

pub proof fn lemma_nodes_model_push(s: Seq<AstNode>, n: AstNode)
    ensures
        nodes_model(s.push(n)) == nodes_model(s).push(node_model(n)),
{
    assert(s.push(n).drop_last() =~= s);
    assert(s.push(n).last() == n);
}

/// How a parse can fail: an unterminated string (from the lexer), an open
/// list never closed before the input ended, or a closing parenthesis with
/// no list open. Each carries the 1-based position it was detected at.
#[derive(Debug)]
pub enum ParserError {
    UnclosedString { line: usize, col: usize },
    UnclosedList { line: usize, col: usize },
    ExtraneousClosingList { line: usize, col: usize },
}

/// Mathematical model of a parse error.
#[verifier::ext_equal]
pub enum ErrorModel {
    UnclosedString { line: int, col: int },
    UnclosedList { line: int, col: int },
    ExtraneousClosingList { line: int, col: int },
}

impl View for ParserError {
    type V = ErrorModel;

    open spec fn view(&self) -> ErrorModel {
        match self {
            ParserError::UnclosedString { line, col } => ErrorModel::UnclosedString {
                line: *line as int,
                col: *col as int,
            },
            ParserError::UnclosedList { line, col } => ErrorModel::UnclosedList {
                line: *line as int,
                col: *col as int,
            },
            ParserError::ExtraneousClosingList { line, col } => ErrorModel::ExtraneousClosingList {
                line: *line as int,
                col: *col as int,
            },
        }
    }
}

/// The bytes of the fixed, human-readable message of each parse error.
pub open spec fn parser_message_model(e: ParserError) -> Seq<u8> {
    match e {
        ParserError::UnclosedString { line, col } => error_prefix(line as int, col as int)
            + "Missing closing for string!".spec_bytes(),
        ParserError::UnclosedList { line, col } => error_prefix(line as int, col as int)
            + "Missing closing for list!".spec_bytes(),
        ParserError::ExtraneousClosingList { line, col } => error_prefix(line as int, col as int)
            + "Extraneous closing for list found".spec_bytes(),
    }
}

impl ParserError {
    /// Render the error as `ERROR:<line>:<col>: <text>` in ASCII bytes,
    /// with the fixed text of its kind.
    pub fn message(&self) -> (r: Vec<u8>)
        ensures
            r@ == parser_message_model(*self),
    {
        let mut out: Vec<u8> = Vec::new();
        match self {
            ParserError::UnclosedString { line, col } => {
                push_prefix(&mut out, *line, *col);
                push_ascii(&mut out, "Missing closing for string!");
            },
            ParserError::UnclosedList { line, col } => {
                push_prefix(&mut out, *line, *col);
                push_ascii(&mut out, "Missing closing for list!");
            },
            ParserError::ExtraneousClosingList { line, col } => {
                push_prefix(&mut out, *line, *col);
                push_ascii(&mut out, "Extraneous closing for list found");
            },
        }
        proof {
            assert(out@ =~= parser_message_model(*self));
        }
        out
    }
}

/// An open, not yet closed list: the elements seen so far and the position
/// of its opening parenthesis.
#[verifier::ext_equal]
pub struct OpenList {
    pub elements: Seq<NodeModel>,
    pub line: int,
    pub col: int,
}

/// Parser state between two tokens: the finished top-level nodes and the
/// stack of open lists, innermost last.
#[verifier::ext_equal]
pub struct ParseState {
    pub program: Seq<NodeModel>,
    pub stack: Seq<OpenList>,
}

/// The parser state with nothing parsed and no list open.
pub open spec fn empty_state() -> ParseState {
    ParseState { program: Seq::empty(), stack: Seq::empty() }
}

/// Append a finished node to the innermost open list, or to the program
/// when no list is open.
pub open spec fn spec_attach(st: ParseState, node: NodeModel) -> ParseState {
    if st.stack.len() == 0 {
        ParseState { program: st.program.push(node), stack: st.stack }
    } else {
        let top = st.stack.last();
        ParseState {
            program: st.program,
            stack: st.stack.drop_last().push(
                OpenList { elements: top.elements.push(node), line: top.line, col: top.col },
            ),
        }
    }
}

/// How one token changes the parser state: `ListOpen` pushes an empty open
/// list, `ListClose` finishes the innermost one (or fails when none is
/// open), and an atom is attached where it belongs.
pub open spec fn parse_step(st: ParseState, t: TokenModel) -> Result<ParseState, ErrorModel> {
    match t {
        TokenModel::ListOpen { line, col } => Ok(
            ParseState {
                program: st.program,
                stack: st.stack.push(OpenList { elements: Seq::empty(), line, col }),
            },
        ),
        TokenModel::ListClose { line, col } => {
            if st.stack.len() == 0 {
                Err(ErrorModel::ExtraneousClosingList { line, col })
            } else {
                let top = st.stack.last();
                let node = NodeModel::List { elements: top.elements, line: top.line, col: top.col };
                Ok(
                    spec_attach(
                        ParseState { program: st.program, stack: st.stack.drop_last() },
                        node,
                    ),
                )
            }
        },
        TokenModel::Symbol { text, line, col } => Ok(
            spec_attach(st, NodeModel::Symbol { value: text, line, col }),
        ),
        TokenModel::Str { text, line, col } => Ok(
            spec_attach(st, NodeModel::Str { value: text, line, col }),
        ),
        TokenModel::Number { text, line, col } => Ok(
            spec_attach(st, NodeModel::Number { value: text, line, col }),
        ),
    }
}

/// Draining the lexer from cursor `s` with intermediate parser state `st`:
/// the finished program, or the first error. The input ending with a list
/// still open fails with `UnclosedList` at the end-of-input position.
pub open spec fn parse_from(st: ParseState, s: LexState) -> Result<Seq<NodeModel>, ErrorModel>
    decreases s.input.len() - s.pos,
        when 0 <= s.pos <= s.input.len()
{
    match lex_next(s) {
        LexOutcome::Tok { token, next } => {
            proof {
                lemma_lex_next_tok_bounds(s);
            }
            match parse_step(st, token) {
                Ok(st2) => parse_from(st2, next),
                Err(e) => Err(e),
            }
        },
        LexOutcome::End { line, col } => {
            if st.stack.len() == 0 {
                Ok(st.program)
            } else {
                Err(ErrorModel::UnclosedList { line, col })
            }
        },
        LexOutcome::Unclosed { line, col } => Err(ErrorModel::UnclosedString { line, col }),
    }
}

/// An open list under construction: the nodes collected so far and the
/// position of the opening parenthesis.
struct OpenFrame {
    elements: Vec<AstNode>,
    line: usize,
    col: usize,
}

spec fn frame_model(f: OpenFrame) -> OpenList {
    OpenList { elements: nodes_model(f.elements@), line: f.line as int, col: f.col as int }
}

spec fn frames_model(s: Seq<OpenFrame>) -> Seq<OpenList> {
    Seq::new(s.len(), |i: int| frame_model(s[i]))
}

/// Append a finished node to the innermost open list, or to the program
/// when no list is open.
fn attach(program: &mut Vec<AstNode>, stack: &mut Vec<OpenFrame>, node: AstNode)
    ensures
        ({
            let st = spec_attach(
                ParseState {
                    program: nodes_model(old(program)@),
                    stack: frames_model(old(stack)@),
                },
                node_model(node),
            );
            nodes_model(final(program)@) == st.program && frames_model(final(stack)@) == st.stack
        }),
{
    if stack.len() == 0 {
        program.push(node);
        proof {
            lemma_nodes_model_push(old(program)@, node);
        }
    } else {
        let ghost os = stack@;
        let mut frame = stack.pop().unwrap();
        frame.elements.push(node);
        stack.push(frame);
        proof {
            lemma_nodes_model_push(os.last().elements@, node);
            assert(stack@ =~= os.drop_last().push(stack@.last()));
            assert(frame_model(stack@.last()) == (OpenList {
                elements: frames_model(os).last().elements.push(node_model(node)),
                line: frames_model(os).last().line,
                col: frames_model(os).last().col,
            }));
            assert(frames_model(stack@) =~= frames_model(os).drop_last().push(
                frame_model(stack@.last()),
            ));
        }
    }
}

/// Drain `lexer` and build the program: the ordered top-level nodes, or
/// the first lexical or structural error. A single pass with an explicit
/// stack of open lists, so nesting depth is not bounded by the call stack.
pub fn parse(lexer: &mut Lexer) -> (r: Result<Vec<AstNode>, ParserError>)
    ensures
        match r {
            Ok(program) => parse_from(empty_state(), old(lexer)@) == Ok::<
                Seq<NodeModel>,
                ErrorModel,
            >(nodes_model(program@)),
            Err(e) => parse_from(empty_state(), old(lexer)@) == Err::<
                Seq<NodeModel>,
                ErrorModel,
            >(e@),
        },
{
    proof {
        use_type_invariant(&*lexer);
        lemma_cursor_bounds(&*lexer);
    }
    let ghost init = lexer@;
    let mut program: Vec<AstNode> = Vec::new();
    let mut stack: Vec<OpenFrame> = Vec::new();
    proof {
        assert(nodes_model(program@) =~= Seq::<NodeModel>::empty());
        assert(frames_model(stack@) =~= Seq::<OpenList>::empty());
        assert((ParseState { program: nodes_model(program@), stack: frames_model(stack@) })
            == empty_state());
    }
    loop
        invariant
            init == old(lexer)@,
            0 <= lexer@.pos <= lexer@.input.len(),
            parse_from(
                ParseState { program: nodes_model(program@), stack: frames_model(stack@) },
                lexer@,
            ) == parse_from(empty_state(), init),
        decreases lexer@.input.len() - lexer@.pos,
    {
        let ghost pre = lexer@;
        let ghost cur = ParseState {
            program: nodes_model(program@),
            stack: frames_model(stack@),
        };
        match lexer.next() {
            Ok(t) => {
                proof {
                    lemma_lex_next_tok_bounds(pre);
                }
                match t {
                    Token::ListOpen { line, col } => {
                        stack.push(OpenFrame { elements: Vec::new(), line, col });
                        proof {
                            assert(frames_model(stack@) =~= cur.stack.push(
                                OpenList { elements: Seq::empty(), line: line as int, col: col as int },
                            ));
                        }
                    },
                    Token::ListClose { line, col } => {
                        if stack.len() == 0 {
                            return Err(ParserError::ExtraneousClosingList { line, col });
                        }
                        let frame = stack.pop().unwrap();
                        let node = AstNode::List {
                            elements: frame.elements,
                            line: frame.line,
                            col: frame.col,
                        };
                        proof {
                            assert(frames_model(stack@) =~= cur.stack.drop_last());
                            assert(node_model(node) == (NodeModel::List {
                                elements: cur.stack.last().elements,
                                line: cur.stack.last().line,
                                col: cur.stack.last().col,
                            }));
                        }
                        attach(&mut program, &mut stack, node);
                    },
                    Token::Symbol { text, line, col } => {
                        attach(&mut program, &mut stack, AstNode::Symbol { value: text, line, col });
                    },
                    Token::Str { text, line, col } => {
                        attach(&mut program, &mut stack, AstNode::Str { value: text, line, col });
                    },
                    Token::Number { text, line, col } => {
                        attach(&mut program, &mut stack, AstNode::Number { value: text, line, col });
                    },
                }
            },
            Err(LexerError::EndOfInput) => {
                if stack.len() == 0 {
                    return Ok(program);
                }
                return Err(ParserError::UnclosedList { line: lexer.line(), col: lexer.col() });
            },
            Err(LexerError::UnclosedString { line, col }) => {
                return Err(ParserError::UnclosedString { line, col });
            },
        }
    }
}

} // verus!
