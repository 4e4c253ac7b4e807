//! Structural theorems: a successful parse reproduces the shape of its
//! token stream exactly, parsing succeeds on every balanced stream, the
//! depth of the resulting forest equals the maximum nesting depth of the
//! parentheses, and list nodes correspond one to one to matched pairs,
//! level by level.

use vstd::prelude::*;

use crate::lexer::LexAll;
use crate::lexer::LexOutcome;
use crate::lexer::LexState;
use crate::lexer::TokenModel;
use crate::lexer::lex_all;
use crate::lexer::lex_next;
use crate::lexer::lemma_lex_next_tok_bounds;
use crate::parser::ErrorModel;
use crate::parser::NodeModel;
use crate::parser::OpenList;
use crate::parser::ParseState;
use crate::parser::empty_state;
use crate::parser::parse_from;
use crate::parser::parse_step;
use crate::parser::spec_attach;

verus! {

/// What a token or node contributes to the bracket structure of the text:
/// an opening parenthesis, a closing one, or an atom.
#[verifier::ext_equal]
pub enum ShapeItem {
    Open,
    Close,
    Leaf,
}

pub open spec fn token_shape(t: TokenModel) -> ShapeItem {
    match t {
        TokenModel::ListOpen { .. } => ShapeItem::Open,
        TokenModel::ListClose { .. } => ShapeItem::Close,
        _ => ShapeItem::Leaf,
    }
}

/// The bracket structure of a token stream.
pub open spec fn kinds(ts: Seq<TokenModel>) -> Seq<ShapeItem> {
    ts.map_values(|t: TokenModel| token_shape(t))
}

/// The bracket structure of one node: a list prints as `(`, its elements,
/// `)`; an atom as a single leaf.
pub open spec fn shape_node(n: NodeModel) -> Seq<ShapeItem>
    decreases n, 1int,
{
    match n {
        NodeModel::List { elements, .. } => {
            proof {
                assert(decreases_to!(n => elements));
            }
            seq![ShapeItem::Open] + shape_seq(elements) + seq![ShapeItem::Close]
        },
        _ => seq![ShapeItem::Leaf],
    }
}

/// The bracket structure of a forest of nodes, in order.
pub open spec fn shape_seq(s: Seq<NodeModel>) -> Seq<ShapeItem>
    decreases s, 0int,
{
    if s.len() == 0 {
        Seq::empty()
    } else {
        {
            proof {
                assert(s.drop_last() == s.subrange(0, s.len() - 1));
                assert(decreases_to!(s => s.subrange(0, s.len() - 1)));
                assert(decreases_to!(s => s[s.len() - 1]));
            }
            shape_seq(s.drop_last()) + shape_node(s.last())
        }
    }
}

/// The bracket structure already consumed by a stack of open lists, bottom
/// first: each open list contributed its `(` and its elements so far.
pub open spec fn open_shape(stack: Seq<OpenList>) -> Seq<ShapeItem>
    decreases stack.len(),
{
    if stack.len() == 0 {
        Seq::empty()
    } else {
        open_shape(stack.drop_last()) + seq![ShapeItem::Open] + shape_seq(stack.last().elements)
    }
}

/// A token stream read with `k` lists already open never closes a list
/// that is not open and closes every one before the input ends.
pub open spec fn balanced_from(ts: Seq<TokenModel>, k: int) -> bool
    decreases ts.len(),
{
    if ts.len() == 0 {
        k == 0
    } else {
        match ts.first() {
            TokenModel::ListOpen { .. } => balanced_from(ts.drop_first(), k + 1),
            TokenModel::ListClose { .. } => k > 0 && balanced_from(ts.drop_first(), k - 1),
            _ => balanced_from(ts.drop_first(), k),
        }
    }
}

/// The tokens of a fully lexed input, empty on a lexing failure.
pub open spec fn stream_tokens(s: LexState) -> Seq<TokenModel> {
    match lex_all(s) {
        LexAll::Done { tokens, .. } => tokens,
        LexAll::Fail { .. } => Seq::empty(),
    }
}

/// The forest of a successful parse, empty on a failure.
pub open spec fn parsed_program(st: ParseState, s: LexState) -> Seq<NodeModel> {
    match parse_from(st, s) {
        Ok(program) => program,
        Err(_) => Seq::empty(),
    }
}

pub proof fn lemma_shape_seq_push(s: Seq<NodeModel>, n: NodeModel)
    ensures
        shape_seq(s.push(n)) == shape_seq(s) + shape_node(n),
{
    assert(s.push(n).drop_last() =~= s);
    assert(s.push(n).last() == n);
}

/// Attaching a node appends its shape to the consumed shape and keeps the
/// number of open lists.
proof fn lemma_attach_shape(st: ParseState, node: NodeModel)
    ensures
        spec_attach(st, node).stack.len() == st.stack.len(),
        shape_seq(spec_attach(st, node).program) + open_shape(spec_attach(st, node).stack)
            =~= shape_seq(st.program) + open_shape(st.stack) + shape_node(node),
{
    if st.stack.len() == 0 {
        lemma_shape_seq_push(st.program, node);
    } else {
        let top = st.stack.last();
        let updated = OpenList {
            elements: top.elements.push(node),
            line: top.line,
            col: top.col,
        };
        let st2 = spec_attach(st, node);
        assert(st2.stack.drop_last() =~= st.stack.drop_last());
        assert(st2.stack.last() == updated);
        lemma_shape_seq_push(top.elements, node);
        assert(open_shape(st2.stack) =~= open_shape(st.stack.drop_last())
            + seq![ShapeItem::Open] + shape_seq(top.elements) + shape_node(node));
        assert(open_shape(st.stack) =~= open_shape(st.stack.drop_last())
            + seq![ShapeItem::Open] + shape_seq(top.elements));
    }
}

/// A balanced token stream parses to completion, and the shape of what
/// comes out is the shape already consumed followed by the shape of the
/// stream.
pub proof fn lemma_parse_shape(st: ParseState, s: LexState)
    requires
        0 <= s.pos <= s.input.len(),
        lex_all(s) is Done,
        balanced_from(stream_tokens(s), st.stack.len() as int),
    ensures
        parse_from(st, s) is Ok,
        shape_seq(parsed_program(st, s)) =~= shape_seq(st.program) + open_shape(st.stack)
            + kinds(stream_tokens(s)),
    decreases s.input.len() - s.pos,
{
    match lex_next(s) {
        LexOutcome::Tok { token, next } => {
            lemma_lex_next_tok_bounds(s);
            let rest = stream_tokens(next);
            let ts = stream_tokens(s);
            assert(lex_all(next) is Done);
            assert(ts == seq![token] + rest);
            assert(ts.first() == token);
            assert(ts.drop_first() =~= rest);
            assert(kinds(ts) =~= seq![token_shape(token)] + kinds(rest));
            match token {
                TokenModel::ListOpen { line, col } => {
                    let st2 = ParseState {
                        program: st.program,
                        stack: st.stack.push(OpenList { elements: Seq::empty(), line, col }),
                    };
                    assert(parse_step(st, token) == Ok::<ParseState, ErrorModel>(st2));
                    assert(shape_seq(Seq::<NodeModel>::empty()) =~= Seq::<ShapeItem>::empty());
                    assert(st2.stack.drop_last() =~= st.stack);
                    assert(open_shape(st2.stack) =~= open_shape(st.stack)
                        + seq![ShapeItem::Open]);
                    lemma_parse_shape(st2, next);
                },
                TokenModel::ListClose { line, col } => {
                    let top = st.stack.last();
                    let node = NodeModel::List {
                        elements: top.elements,
                        line: top.line,
                        col: top.col,
                    };
                    let mid = ParseState { program: st.program, stack: st.stack.drop_last() };
                    let st2 = spec_attach(mid, node);
                    assert(parse_step(st, token) == Ok::<ParseState, ErrorModel>(st2));
                    lemma_attach_shape(mid, node);
                    assert(open_shape(st.stack) =~= open_shape(mid.stack)
                        + seq![ShapeItem::Open] + shape_seq(top.elements));
                    assert(shape_node(node) =~= seq![ShapeItem::Open] + shape_seq(top.elements)
                        + seq![ShapeItem::Close]);
                    assert(shape_seq(st2.program) + open_shape(st2.stack) =~= shape_seq(
                        st.program,
                    ) + open_shape(st.stack) + seq![ShapeItem::Close]);
                    lemma_parse_shape(st2, next);
                },
                TokenModel::Symbol { text, line, col } => {
                    let node = NodeModel::Symbol { value: text, line, col };
                    let st2 = spec_attach(st, node);
                    lemma_attach_shape(st, node);
                    lemma_parse_shape(st2, next);
                },
                TokenModel::Str { text, line, col } => {
                    let node = NodeModel::Str { value: text, line, col };
                    let st2 = spec_attach(st, node);
                    lemma_attach_shape(st, node);
                    lemma_parse_shape(st2, next);
                },
                TokenModel::Number { text, line, col } => {
                    let node = NodeModel::Number { value: text, line, col };
                    let st2 = spec_attach(st, node);
                    lemma_attach_shape(st, node);
                    lemma_parse_shape(st2, next);
                },
            }
        },
        LexOutcome::End { .. } => {
            assert(stream_tokens(s) =~= Seq::<TokenModel>::empty());
            assert(st.stack.len() == 0);
            assert(open_shape(st.stack) =~= Seq::<ShapeItem>::empty());
            assert(kinds(stream_tokens(s)) =~= Seq::<ShapeItem>::empty());
        },
        LexOutcome::Unclosed { .. } => {
            assert(false);
        },
    }
}

pub open spec fn max_int(a: int, b: int) -> int {
    if a >= b {
        a
    } else {
        b
    }
}

/// Structural depth of one node: an atom is flat, a list is one deeper
/// than its deepest element.
pub open spec fn node_depth(n: NodeModel) -> int
    decreases n, 1int,
{
    match n {
        NodeModel::List { elements, .. } => {
            proof {
                assert(decreases_to!(n => elements));
            }
            1 + seq_depth(elements)
        },
        _ => 0,
    }
}

/// Structural depth of a forest: the depth of its deepest node.
pub open spec fn seq_depth(s: Seq<NodeModel>) -> int
    decreases s, 0int,
{
    if s.len() == 0 {
        0
    } else {
        {
            proof {
                assert(s.drop_last() == s.subrange(0, s.len() - 1));
                assert(decreases_to!(s => s.subrange(0, s.len() - 1)));
                assert(decreases_to!(s => s[s.len() - 1]));
            }
            max_int(seq_depth(s.drop_last()), node_depth(s.last()))
        }
    }
}

/// What one bracket item does to the nesting depth.
pub open spec fn shape_delta(x: ShapeItem) -> int {
    match x {
        ShapeItem::Open => 1,
        ShapeItem::Close => -1,
        ShapeItem::Leaf => 0,
    }
}

/// Net nesting change over a whole bracket sequence.
pub open spec fn shape_net(shape: Seq<ShapeItem>) -> int
    decreases shape.len(),
{
    if shape.len() == 0 {
        0
    } else {
        shape_delta(shape.first()) + shape_net(shape.drop_first())
    }
}

/// The maximum nesting depth reached while reading `shape` with `k` lists
/// already open.
pub open spec fn max_depth_from(shape: Seq<ShapeItem>, k: int) -> int
    decreases shape.len(),
{
    if shape.len() == 0 {
        k
    } else {
        max_int(k, max_depth_from(shape.drop_first(), k + shape_delta(shape.first())))
    }
}

/// Number of opening parentheses read at nesting level `l` (that is, with
/// `l - 1` lists already open), starting `k` lists deep.
pub open spec fn opens_at(shape: Seq<ShapeItem>, l: int, k: int) -> int
    decreases shape.len(),
{
    if shape.len() == 0 {
        0
    } else {
        (if shape.first() == ShapeItem::Open && k == l - 1 {
            1int
        } else {
            0int
        }) + opens_at(shape.drop_first(), l, k + shape_delta(shape.first()))
    }
}

/// Number of list nodes at nesting level `l` in one node, its own level
/// being 1.
pub open spec fn lists_at_node(n: NodeModel, l: int) -> int
    decreases n, 1int,
{
    match n {
        NodeModel::List { elements, .. } => {
            proof {
                assert(decreases_to!(n => elements));
            }
            (if l == 1 {
                1int
            } else {
                0int
            }) + lists_at_seq(elements, l - 1)
        },
        _ => 0,
    }
}

/// Number of list nodes at nesting level `l` in a forest whose top-level
/// nodes are at level 1.
pub open spec fn lists_at_seq(s: Seq<NodeModel>, l: int) -> int
    decreases s, 0int,
{
    if s.len() == 0 {
        0
    } else {
        {
            proof {
                assert(s.drop_last() == s.subrange(0, s.len() - 1));
                assert(decreases_to!(s => s.subrange(0, s.len() - 1)));
                assert(decreases_to!(s => s[s.len() - 1]));
            }
            lists_at_seq(s.drop_last(), l) + lists_at_node(s.last(), l)
        }
    }
}

proof fn lemma_net_concat(a: Seq<ShapeItem>, b: Seq<ShapeItem>)
    ensures
        shape_net(a + b) == shape_net(a) + shape_net(b),
    decreases a.len(),
{
    if a.len() == 0 {
        assert(a + b =~= b);
    } else {
        assert((a + b).drop_first() =~= a.drop_first() + b);
        lemma_net_concat(a.drop_first(), b);
    }
}

proof fn lemma_mdf_ge(shape: Seq<ShapeItem>, k: int)
    ensures
        max_depth_from(shape, k) >= k,
    decreases shape.len(),
{
    if shape.len() > 0 {
        lemma_mdf_ge(shape.drop_first(), k + shape_delta(shape.first()));
    }
}

proof fn lemma_mdf_concat(a: Seq<ShapeItem>, b: Seq<ShapeItem>, k: int)
    ensures
        max_depth_from(a + b, k) == max_int(
            max_depth_from(a, k),
            max_depth_from(b, k + shape_net(a)),
        ),
    decreases a.len(),
{
    if a.len() == 0 {
        assert(a + b =~= b);
        lemma_mdf_ge(b, k);
    } else {
        assert((a + b).drop_first() =~= a.drop_first() + b);
        lemma_net_concat(seq![a.first()], a.drop_first());
        assert(seq![a.first()] + a.drop_first() =~= a);
        lemma_mdf_concat(a.drop_first(), b, k + shape_delta(a.first()));
    }
}

proof fn lemma_opens_at_concat(a: Seq<ShapeItem>, b: Seq<ShapeItem>, l: int, k: int)
    ensures
        opens_at(a + b, l, k) == opens_at(a, l, k) + opens_at(b, l, k + shape_net(a)),
    decreases a.len(),
{
    if a.len() == 0 {
        assert(a + b =~= b);
    } else {
        assert((a + b).drop_first() =~= a.drop_first() + b);
        lemma_net_concat(seq![a.first()], a.drop_first());
        assert(seq![a.first()] + a.drop_first() =~= a);
        lemma_opens_at_concat(a.drop_first(), b, l, k + shape_delta(a.first()));
    }
}

proof fn lemma_single_shape(x: ShapeItem, l: int, k: int)
    ensures
        shape_net(seq![x]) == shape_delta(x),
        max_depth_from(seq![x], k) == max_int(k, k + shape_delta(x)),
        opens_at(seq![x], l, k) == (if x == ShapeItem::Open && k == l - 1 {
            1int
        } else {
            0int
        }),
{
    reveal_with_fuel(shape_net, 2);
    reveal_with_fuel(max_depth_from, 2);
    reveal_with_fuel(opens_at, 2);
    assert((seq![x]).drop_first() =~= Seq::<ShapeItem>::empty());
    assert((seq![x]).first() == x);
}

proof fn lemma_depth_nonneg_node(n: NodeModel)
    ensures
        node_depth(n) >= 0,
    decreases n, 1int,
{
    match n {
        NodeModel::List { elements, .. } => {
            assert(decreases_to!(n => elements));
            lemma_depth_nonneg_seq(elements);
        },
        _ => {},
    }
}

proof fn lemma_depth_nonneg_seq(s: Seq<NodeModel>)
    ensures
        seq_depth(s) >= 0,
    decreases s, 0int,
{
    if s.len() > 0 {
        assert(s.drop_last() == s.subrange(0, s.len() - 1));
        assert(decreases_to!(s => s.subrange(0, s.len() - 1)));
        assert(decreases_to!(s => s[s.len() - 1]));
        lemma_depth_nonneg_seq(s.drop_last());
        lemma_depth_nonneg_node(s.last());
    }
}

/// The bracket structure of one node is balanced, and reading it from `k`
/// lists deep reaches exactly `k` plus the node's depth.
proof fn lemma_node_depth_shape(n: NodeModel, k: int)
    ensures
        shape_net(shape_node(n)) == 0,
        max_depth_from(shape_node(n), k) == k + node_depth(n),
    decreases n, 1int,
{
    lemma_depth_nonneg_node(n);
    match n {
        NodeModel::List { elements, .. } => {
            assert(decreases_to!(n => elements));
            lemma_seq_depth_shape(elements, k + 1);
            lemma_depth_nonneg_seq(elements);
            let a = seq![ShapeItem::Open];
            let c = seq![ShapeItem::Close];
            let inner = shape_seq(elements);
            let d = seq_depth(elements);
            assert(shape_node(n) == a + inner + c);
            lemma_single_shape(ShapeItem::Open, 0, k);
            lemma_single_shape(ShapeItem::Close, 0, k + 1);
            lemma_net_concat(a, inner);
            lemma_net_concat(a + inner, c);
            assert(shape_net(a + inner) == 1);
            assert(shape_net(shape_node(n)) == 0);
            lemma_mdf_concat(a, inner, k);
            lemma_mdf_concat(a + inner, c, k);
            assert(max_depth_from(a, k) == k + 1);
            assert(max_depth_from(a + inner, k) == max_int(k + 1, max_depth_from(inner, k + 1)));
            assert(max_depth_from(inner, k + 1) == k + 1 + d);
            assert(max_depth_from(a + inner, k) == k + 1 + d);
            assert(max_depth_from(c, k + 1) == k + 1);
            assert(max_depth_from(shape_node(n), k) == max_int(k + 1 + d, k + 1));
            assert(max_depth_from(shape_node(n), k) == k + 1 + d);
        },
        _ => {
            lemma_single_shape(ShapeItem::Leaf, 0, k);
        },
    }
}

/// The bracket structure of a forest is balanced, and reading it from `k`
/// lists deep reaches exactly `k` plus the forest's depth.
proof fn lemma_seq_depth_shape(s: Seq<NodeModel>, k: int)
    ensures
        shape_net(shape_seq(s)) == 0,
        max_depth_from(shape_seq(s), k) == k + seq_depth(s),
    decreases s, 0int,
{
    lemma_depth_nonneg_seq(s);
    if s.len() > 0 {
        assert(s.drop_last() == s.subrange(0, s.len() - 1));
        assert(decreases_to!(s => s.subrange(0, s.len() - 1)));
        assert(decreases_to!(s => s[s.len() - 1]));
        lemma_seq_depth_shape(s.drop_last(), k);
        lemma_node_depth_shape(s.last(), k);
        lemma_depth_nonneg_seq(s.drop_last());
        lemma_depth_nonneg_node(s.last());
        lemma_net_concat(shape_seq(s.drop_last()), shape_node(s.last()));
        lemma_mdf_concat(shape_seq(s.drop_last()), shape_node(s.last()), k);
    }
}

/// Opening parentheses of one node's structure, read from `k` lists deep,
/// at level `l`, are its list nodes at relative level `l - k`.
proof fn lemma_node_lists_shape(n: NodeModel, l: int, k: int)
    ensures
        opens_at(shape_node(n), l, k) == lists_at_node(n, l - k),
    decreases n, 1int,
{
    match n {
        NodeModel::List { elements, .. } => {
            assert(decreases_to!(n => elements));
            lemma_seq_lists_shape(elements, l, k + 1);
            let a = seq![ShapeItem::Open];
            let c = seq![ShapeItem::Close];
            let inner = shape_seq(elements);
            assert(shape_node(n) == a + inner + c);
            lemma_seq_depth_shape(elements, k + 1);
            lemma_single_shape(ShapeItem::Open, l, k);
            lemma_single_shape(ShapeItem::Close, l, k + 1);
            lemma_net_concat(a, inner);
            assert(shape_net(a + inner) == 1);
            lemma_opens_at_concat(a + inner, c, l, k);
            lemma_opens_at_concat(a, inner, l, k);
            assert(opens_at(shape_node(n), l, k) == opens_at(a, l, k) + opens_at(inner, l, k + 1));
        },
        _ => {
            lemma_single_shape(ShapeItem::Leaf, l, k);
        },
    }
}

/// Opening parentheses of a forest's structure, read from `k` lists deep,
/// at level `l`, are its list nodes at relative level `l - k`.
proof fn lemma_seq_lists_shape(s: Seq<NodeModel>, l: int, k: int)
    ensures
        opens_at(shape_seq(s), l, k) == lists_at_seq(s, l - k),
    decreases s, 0int,
{
    if s.len() > 0 {
        assert(s.drop_last() == s.subrange(0, s.len() - 1));
        assert(decreases_to!(s => s.subrange(0, s.len() - 1)));
        assert(decreases_to!(s => s[s.len() - 1]));
        lemma_seq_lists_shape(s.drop_last(), l, k);
        lemma_node_lists_shape(s.last(), l, k);
        lemma_seq_depth_shape(s.drop_last(), k);
        lemma_opens_at_concat(shape_seq(s.drop_last()), shape_node(s.last()), l, k);
    }
}

/// An input whose whole token stream exists (every string is properly
/// quoted) and whose parentheses are balanced parses successfully, and the
/// structural depth of the resulting forest equals the maximum nesting
/// depth of the parentheses in the input.
pub proof fn lemma_balanced_input_parses(s: LexState)
    requires
        0 <= s.pos <= s.input.len(),
        lex_all(s) is Done,
        balanced_from(stream_tokens(s), 0),
    ensures
        parse_from(empty_state(), s) is Ok,
        seq_depth(parsed_program(empty_state(), s)) == max_depth_from(kinds(stream_tokens(s)), 0),
{
    lemma_parse_shape(empty_state(), s);
    let prog = parsed_program(empty_state(), s);
    assert(shape_seq(prog) =~= kinds(stream_tokens(s)));
    lemma_seq_depth_shape(prog, 0);
    lemma_depth_nonneg_seq(prog);
}

/// Under the same conditions, the number of list nodes at any nesting
/// level of the resulting forest equals the number of matched parenthesis
/// pairs opened at that level, for every level.
pub proof fn lemma_matched_pairs(s: LexState, level: int)
    requires
        0 <= s.pos <= s.input.len(),
        lex_all(s) is Done,
        balanced_from(stream_tokens(s), 0),
    ensures
        parse_from(empty_state(), s) is Ok,
        lists_at_seq(parsed_program(empty_state(), s), level) == opens_at(
            kinds(stream_tokens(s)),
            level,
            0,
        ),
{
    lemma_parse_shape(empty_state(), s);
    let prog = parsed_program(empty_state(), s);
    assert(shape_seq(prog) =~= kinds(stream_tokens(s)));
    lemma_seq_lists_shape(prog, level, 0);
}

} // verus!
