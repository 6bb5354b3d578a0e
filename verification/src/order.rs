//! What building a tree keeps of the order of the tokens.
use vstd::prelude::*;
use crate::token::{Token, TokenCategory};
use crate::tree::Node;
use crate::parse::{
    lead_char, operator_precedence, reduce, process_spec, close_spec, feed, feed_all, finish_spec,
    parse_tokens,
};

verus! {

/// The tokens of a tree read from left to right: each operator between its two operands.
pub open spec fn inorder(n: Node) -> Seq<Token>
    decreases n,
{
    match n {
        Node::Terminal(t, _) => seq![t],
        Node::Branching(t, c1, c2, _) => inorder(*c1) + seq![t] + inorder(*c2),
    }
}

/// The tokens of a row of trees, read from left to right.
pub open spec fn concat_inorder(ns: Seq<Node>) -> Seq<Token>
    decreases ns.len(),
{
    if ns.len() == 0 {
        Seq::empty()
    } else {
        concat_inorder(ns.drop_last()) + inorder(ns.last())
    }
}

/// The tokens without the parentheses.
pub open spec fn without_parens(ts: Seq<Token>) -> Seq<Token>
    decreases ts.len(),
{
    if ts.len() == 0 {
        Seq::empty()
    } else if ts.last().token_type is Parenthesis {
        without_parens(ts.drop_last())
    } else {
        without_parens(ts.drop_last()).push(ts.last())
    }
}

/// Whether a token is an opening parenthesis whose text starts with `(`.
pub open spec fn is_open_token(t: Token) -> bool {
    t.token_type == TokenCategory::Parenthesis(true) && lead_char(t) == Some('(')
}

/// Whether a token is an operator whose text starts with an operator character.
pub open spec fn is_operator_token(t: Token) -> bool {
    &&& t.token_type == TokenCategory::Operator
    &&& lead_char(t) is Some
    &&& operator_precedence(lead_char(t).unwrap()) is Some
}

/// Where the reading of a well-formed expression stands after one more token: how many
/// parentheses are open, and whether an operand is expected next. An operand comes when one is
/// expected; an operator follows an operand; an opening parenthesis comes when an operand is
/// expected; a closing one follows an operand and closes an open one. None once the tokens go
/// wrong.
pub open spec fn expression_step(state: Option<(int, bool)>, t: Token) -> Option<(int, bool)> {
    match state {
        None => None,
        Some((depth, expect_operand)) => match t.token_type {
            TokenCategory::Constant | TokenCategory::Variable => if expect_operand {
                Some((depth, false))
            } else {
                None
            },
            TokenCategory::Operator => if !expect_operand && is_operator_token(t) {
                Some((depth, true))
            } else {
                None
            },
            TokenCategory::Parenthesis(true) => if expect_operand && is_open_token(t) {
                Some((depth + 1, true))
            } else {
                None
            },
            TokenCategory::Parenthesis(false) => if !expect_operand && depth > 0 {
                Some((depth - 1, false))
            } else {
                None
            },
        },
    }
}

/// Where the reading of the tokens stands, from the start (no parenthesis open, an operand
/// expected).
pub open spec fn expression_state(ts: Seq<Token>) -> Option<(int, bool)>
    decreases ts.len(),
{
    if ts.len() == 0 {
        Some((0int, true))
    } else {
        expression_step(expression_state(ts.drop_last()), ts.last())
    }
}

/// Whether the tokens make a well-formed infix expression: operands and operators alternate,
/// starting and ending with an operand, and the parentheses balance.
pub open spec fn is_well_formed_expression(ts: Seq<Token>) -> bool {
    expression_state(ts) == Some((0int, false))
}

/// The tokens that the stacks stand for, read from left to right: each waiting operator
/// between the operands around it. `expect_operand` says whether the top operator still waits
/// for its second operand.
pub open spec fn flat(ops: Seq<Token>, operands: Seq<Node>, expect_operand: bool) -> Seq<Token>
    decreases ops.len(),
{
    if ops.len() == 0 {
        concat_inorder(operands)
    } else if is_open_token(ops.last()) {
        if expect_operand {
            flat(ops.drop_last(), operands, true)
        } else {
            flat(ops.drop_last(), operands.drop_last(), true) + inorder(operands.last())
        }
    } else {
        if expect_operand {
            flat(ops.drop_last(), operands, false) + seq![ops.last()]
        } else {
            flat(ops.drop_last(), operands.drop_last(), false) + seq![ops.last()] + inorder(
                operands.last(),
            )
        }
    }
}

/// Whether the stacks have the shape that reading a well-formed expression leaves: every
/// waiting token an operator or an opening parenthesis, and one operand for each place that
/// `flat` reads one from.
pub open spec fn shape_ok(ops: Seq<Token>, operands: Seq<Node>, expect_operand: bool) -> bool
    decreases ops.len(),
{
    if ops.len() == 0 {
        operands.len() == if expect_operand {
            0int
        } else {
            1int
        }
    } else {
        &&& (is_open_token(ops.last()) || is_operator_token(ops.last()))
        &&& if is_open_token(ops.last()) {
            if expect_operand {
                shape_ok(ops.drop_last(), operands, true)
            } else {
                operands.len() >= 1 && shape_ok(ops.drop_last(), operands.drop_last(), true)
            }
        } else {
            if expect_operand {
                shape_ok(ops.drop_last(), operands, false)
            } else {
                operands.len() >= 1 && shape_ok(ops.drop_last(), operands.drop_last(), false)
            }
        }
    }
}

/// How many opening parentheses wait on the stack.
pub open spec fn open_count(ops: Seq<Token>) -> int
    decreases ops.len(),
{
    if ops.len() == 0 {
        0
    } else {
        open_count(ops.drop_last()) + if is_open_token(ops.last()) {
            1int
        } else {
            0int
        }
    }
}

/// The invariant of building: the stacks have their shape, count the open parentheses, and
/// stand for the tokens read so far without their parentheses.
pub open spec fn stacks_stand_for(
    ops: Seq<Token>,
    operands: Seq<Node>,
    depth: int,
    expect_operand: bool,
    read: Seq<Token>,
) -> bool {
    &&& shape_ok(ops, operands, expect_operand)
    &&& open_count(ops) == depth
    &&& flat(ops, operands, expect_operand) == without_parens(read)
}

/// Reading one operand off the top: the stacks after an operand stand for the stacks that
/// expect it, followed by it.
proof fn lemma_split_last(ops: Seq<Token>, operands: Seq<Node>)
    requires
        operands.len() >= 1,
    ensures
        flat(ops, operands, false) == flat(ops, operands.drop_last(), true) + inorder(
            operands.last(),
        ),
        shape_ok(ops, operands, false) == shape_ok(ops, operands.drop_last(), true),
{
    if ops.len() == 0 {
        assert(shape_ok(ops, operands, false) == (operands.len() == 1));
    }
}

proof fn lemma_shape_has_operand(ops: Seq<Token>, operands: Seq<Node>)
    requires
        shape_ok(ops, operands, false),
    ensures
        operands.len() >= 1,
{
}

/// Applying the top operator keeps what the stacks stand for.
proof fn lemma_reduce_keeps(ops: Seq<Token>, operands: Seq<Node>)
    requires
        ops.len() > 0,
        !is_open_token(ops.last()),
        shape_ok(ops, operands, false),
    ensures
        reduce(operands, ops.last()) is Some,
        shape_ok(ops.drop_last(), reduce(operands, ops.last()).unwrap(), false),
        flat(ops.drop_last(), reduce(operands, ops.last()).unwrap(), false) == flat(
            ops,
            operands,
            false,
        ),
        open_count(ops.drop_last()) == open_count(ops),
{
    let o1 = operands.drop_last();
    lemma_shape_has_operand(ops.drop_last(), o1);
    let reduced = reduce(operands, ops.last()).unwrap();
    let left = o1.last();
    let right = operands.last();
    let b = Node::Branching(ops.last(), Box::new(left), Box::new(right), 0);
    assert(reduced == o1.drop_last().push(b));
    assert(reduced.drop_last() =~= o1.drop_last());
    lemma_split_last(ops.drop_last(), o1);
    lemma_split_last(ops.drop_last(), reduced);
    assert(inorder(b) == inorder(left) + seq![ops.last()] + inorder(right));
    assert(flat(ops.drop_last(), reduced, false) =~= flat(ops, operands, false));
}

/// An operator arriving after an operand of a well-formed expression always finds its place,
/// and the stacks then stand for the tokens read, followed by the operator.
proof fn lemma_process_keeps(ops: Seq<Token>, incoming: Token, operands: Seq<Node>)
    requires
        shape_ok(ops, operands, false),
        is_operator_token(incoming),
    ensures
        process_spec(ops, incoming, operands) matches Some((o, n)) && shape_ok(o, n, true)
            && open_count(o) == open_count(ops) && flat(o, n, true) == flat(ops, operands, false)
            + seq![incoming],
    decreases ops.len(),
{
    assert(ops.push(incoming).drop_last() =~= ops);
    assert(!is_open_token(incoming));
    if ops.len() > 0 {
        let top = ops.last();
        if is_open_token(top) {
        } else {
            lemma_reduce_keeps(ops, operands);
            let reduced = reduce(operands, top).unwrap();
            let tc = lead_char(top).unwrap();
            let ic = lead_char(incoming).unwrap();
            assert(tc != '(');
            if operator_precedence(tc).unwrap() > operator_precedence(ic).unwrap() {
                lemma_process_keeps(ops.drop_last(), incoming, reduced);
            } else if operator_precedence(tc).unwrap() == operator_precedence(ic).unwrap() {
                assert(ops.drop_last().push(incoming).drop_last() =~= ops.drop_last());
            }
        }
    }
}

/// A closing parenthesis after an operand, with a parenthesis open, always closes it, and the
/// stacks then stand for the same tokens.
proof fn lemma_close_keeps(ops: Seq<Token>, operands: Seq<Node>)
    requires
        shape_ok(ops, operands, false),
        open_count(ops) > 0,
    ensures
        close_spec(ops, operands) matches Some((o, n)) && shape_ok(o, n, false) && open_count(o)
            == open_count(ops) - 1 && flat(o, n, false) == flat(ops, operands, false),
    decreases ops.len(),
{
    let top = ops.last();
    if top.token_type == TokenCategory::Parenthesis(true) {
        assert(is_open_token(top));
        lemma_split_last(ops.drop_last(), operands);
    } else {
        lemma_reduce_keeps(ops, operands);
        lemma_close_keeps(ops.drop_last(), reduce(operands, top).unwrap());
    }
}

/// Applying the waiting operators of a well-formed expression always succeeds, and leaves one
/// tree that stands for the same tokens.
proof fn lemma_finish_keeps(ops: Seq<Token>, operands: Seq<Node>)
    requires
        shape_ok(ops, operands, false),
        open_count(ops) == 0,
    ensures
        finish_spec(ops, operands) matches Some(n) && n.len() == 1 && inorder(n[0]) == flat(
            ops,
            operands,
            false,
        ),
    decreases ops.len(),
{
    if ops.len() == 0 {
        assert(operands.drop_last() =~= Seq::<Node>::empty());
        assert(concat_inorder(operands) =~= concat_inorder(operands.drop_last()) + inorder(
            operands.last(),
        ));
        assert(operands.last() == operands[0]);
    } else {
        lemma_open_count_nonneg(ops.drop_last());
        lemma_reduce_keeps(ops, operands);
        lemma_finish_keeps(ops.drop_last(), reduce(operands, ops.last()).unwrap());
    }
}

proof fn lemma_open_count_nonneg(ops: Seq<Token>)
    ensures
        open_count(ops) >= 0,
    decreases ops.len(),
{
    if ops.len() > 0 {
        lemma_open_count_nonneg(ops.drop_last());
    }
}

proof fn lemma_feed_all_keeps(ts: Seq<Token>)
    requires
        expression_state(ts) is Some,
    ensures
        feed_all(ts) matches Some((o, n)) && stacks_stand_for(
            o,
            n,
            expression_state(ts).unwrap().0,
            expression_state(ts).unwrap().1,
            ts,
        ),
    decreases ts.len(),
{
    if ts.len() == 0 {
    } else {
        let prev = ts.drop_last();
        let t = ts.last();
        lemma_feed_all_keeps(prev);
        let (o, n) = feed_all(prev).unwrap();
        let (depth, expect) = expression_state(prev).unwrap();
        assert(feed_all(ts) == feed(feed_all(prev), t));
        match t.token_type {
            TokenCategory::Constant | TokenCategory::Variable => {
                let n2 = n.push(Node::Terminal(t, 0));
                assert(n2.drop_last() =~= n);
                lemma_split_last(o, n2);
                assert(inorder(Node::Terminal(t, 0)) == seq![t]);
                assert(without_parens(ts) =~= without_parens(prev) + seq![t]);
            },
            TokenCategory::Operator => {
                lemma_process_keeps(o, t, n);
                assert(without_parens(ts) =~= without_parens(prev) + seq![t]);
            },
            TokenCategory::Parenthesis(true) => {
                assert(o.push(t).drop_last() =~= o);
                assert(without_parens(ts) == without_parens(prev));
            },
            TokenCategory::Parenthesis(false) => {
                lemma_close_keeps(o, n);
                assert(without_parens(ts) == without_parens(prev));
            },
        }
    }
}

/// Building succeeds on every well-formed expression, and keeps the order of its tokens:
/// reading the tree from left to right, each operator between its operands, gives the tokens
/// without their parentheses.
pub proof fn lemma_parse_keeps_token_order(tokens: Seq<Token>)
    requires
        is_well_formed_expression(tokens),
    ensures
        parse_tokens(tokens) is Some,
        inorder(parse_tokens(tokens).unwrap()) == without_parens(tokens),
{
    lemma_feed_all_keeps(tokens);
    let (o, n) = feed_all(tokens).unwrap();
    lemma_finish_keeps(o, n);
}


/// The precedence of an operator token.
pub open spec fn token_precedence(t: Token) -> int {
    operator_precedence(lead_char(t).unwrap()).unwrap()
}

/// How tightly a node binds: a terminal tighter than any operator, a branching node as its
/// operator does.
pub open spec fn node_precedence(n: Node) -> int {
    match n {
        Node::Terminal(..) => 3,
        Node::Branching(t, _, _, _) => token_precedence(t),
    }
}

/// Whether the tree groups by precedence, and to the left among equals: the first operand of
/// every operator binds at least as tightly as the operator, and the second binds more tightly.
pub open spec fn respects_precedence(n: Node) -> bool
    decreases n,
{
    match n {
        Node::Terminal(..) => true,
        Node::Branching(_, c1, c2, _) => {
            &&& node_precedence(*c1) >= node_precedence(n)
            &&& node_precedence(*c2) > node_precedence(n)
            &&& respects_precedence(*c1)
            &&& respects_precedence(*c2)
        },
    }
}

/// Whether no token is a parenthesis.
pub open spec fn no_parens(ts: Seq<Token>) -> bool {
    forall|i: int| 0 <= i < ts.len() ==> !((#[trigger] ts[i]).token_type is Parenthesis)
}

/// The invariant of building an expression without parentheses: the waiting operators bind
/// ever tighter from the bottom of the stack up, each operand binds at least as tightly as the
/// operator after it and more tightly than the one before it, and an operand that was just
/// read is a terminal.
pub open spec fn stacks_by_precedence(ops: Seq<Token>, operands: Seq<Node>, expect_operand: bool) -> bool {
    &&& forall|i: int| 0 <= i < ops.len() ==> is_operator_token(#[trigger] ops[i])
    &&& forall|i: int, j: int|
        0 <= i < j < ops.len() ==> token_precedence(#[trigger] ops[i]) < token_precedence(
            #[trigger] ops[j],
        )
    &&& operands.len() == ops.len() + if expect_operand {
        0int
    } else {
        1int
    }
    &&& forall|i: int| 0 <= i < operands.len() ==> respects_precedence(#[trigger] operands[i])
    &&& forall|i: int|
        0 <= i < operands.len() && i < ops.len() ==> node_precedence(#[trigger] operands[i])
            >= token_precedence(ops[i])
    &&& forall|i: int|
        1 <= i < operands.len() ==> node_precedence(#[trigger] operands[i]) > token_precedence(
            ops[i - 1],
        )
    &&& !expect_operand ==> operands.last() is Terminal
}

proof fn lemma_precedence_bounds(t: Token)
    requires
        is_operator_token(t),
    ensures
        -1 <= token_precedence(t) <= 2,
{
}

proof fn lemma_reduce_by_precedence(ops: Seq<Token>, operands: Seq<Node>)
    requires
        ops.len() > 0,
        forall|i: int| 0 <= i < ops.len() ==> is_operator_token(#[trigger] ops[i]),
        forall|i: int, j: int|
            0 <= i < j < ops.len() ==> token_precedence(#[trigger] ops[i]) < token_precedence(
                #[trigger] ops[j],
            ),
        operands.len() == ops.len() + 1,
        forall|i: int| 0 <= i < operands.len() ==> respects_precedence(#[trigger] operands[i]),
        forall|i: int|
            0 <= i < operands.len() && i < ops.len() ==> node_precedence(#[trigger] operands[i])
                >= token_precedence(ops[i]),
        forall|i: int|
            1 <= i < operands.len() ==> node_precedence(#[trigger] operands[i]) > token_precedence(
                ops[i - 1],
            ),
    ensures
        reduce(operands, ops.last()) matches Some(r) && {
            let o = ops.drop_last();
            &&& r.len() == o.len() + 1
            &&& forall|i: int| 0 <= i < r.len() ==> respects_precedence(#[trigger] r[i])
            &&& forall|i: int|
                0 <= i < r.len() && i < o.len() ==> node_precedence(#[trigger] r[i])
                    >= token_precedence(o[i])
            &&& forall|i: int|
                1 <= i < r.len() ==> node_precedence(#[trigger] r[i]) > token_precedence(o[i - 1])
            &&& node_precedence(r.last()) == token_precedence(ops.last())
        },
{
    let k = ops.len() - 1;
    let r = reduce(operands, ops.last()).unwrap();
    let o = ops.drop_last();
    let left = operands[k];
    let right = operands[k + 1];
    assert(operands.drop_last().last() == left);
    let b = Node::Branching(ops.last(), Box::new(left), Box::new(right), 0);
    assert(r[k] == b);
    assert(respects_precedence(b));
    assert forall|i: int| 0 <= i < r.len() && i < o.len() implies node_precedence(#[trigger] r[i])
        >= token_precedence(o[i]) by {
        assert(r[i] == operands[i]);
    }
    assert forall|i: int| 1 <= i < r.len() implies node_precedence(#[trigger] r[i])
        > token_precedence(o[i - 1]) by {
        if i < k {
            assert(r[i] == operands[i]);
        } else {
            assert(token_precedence(ops[i - 1]) < token_precedence(ops[k]));
        }
    }
    assert forall|i: int| 0 <= i < r.len() implies respects_precedence(#[trigger] r[i]) by {
        if i < k {
            assert(r[i] == operands[i]);
        }
    }
}

proof fn lemma_process_by_precedence(ops: Seq<Token>, incoming: Token, operands: Seq<Node>)
    requires
        forall|i: int| 0 <= i < ops.len() ==> is_operator_token(#[trigger] ops[i]),
        forall|i: int, j: int|
            0 <= i < j < ops.len() ==> token_precedence(#[trigger] ops[i]) < token_precedence(
                #[trigger] ops[j],
            ),
        operands.len() == ops.len() + 1,
        forall|i: int| 0 <= i < operands.len() ==> respects_precedence(#[trigger] operands[i]),
        forall|i: int|
            0 <= i < operands.len() && i < ops.len() ==> node_precedence(#[trigger] operands[i])
                >= token_precedence(ops[i]),
        forall|i: int|
            1 <= i < operands.len() ==> node_precedence(#[trigger] operands[i]) > token_precedence(
                ops[i - 1],
            ),
        is_operator_token(incoming),
        node_precedence(operands.last()) >= token_precedence(incoming),
    ensures
        process_spec(ops, incoming, operands) matches Some((o, n)) && stacks_by_precedence(
            o,
            n,
            true,
        ),
    decreases ops.len(),
{
    let k = ops.len();
    let pushed = ops.push(incoming);
    assert(pushed.drop_last() =~= ops);
    if k == 0 {
    } else {
        let top = ops.last();
        assert(is_operator_token(top));
        let tc = lead_char(top).unwrap();
        let ic = lead_char(incoming).unwrap();
        assert(tc != '(');
        if operator_precedence(tc).unwrap() < operator_precedence(ic).unwrap() {
            assert forall|i: int, j: int| 0 <= i < j < pushed.len() implies token_precedence(
                #[trigger] pushed[i],
            ) < token_precedence(#[trigger] pushed[j]) by {
                if j == k && i < k - 1 {
                    assert(token_precedence(ops[i]) < token_precedence(ops[k - 1]));
                }
            }
        } else {
            lemma_reduce_by_precedence(ops, operands);
            let r = reduce(operands, top).unwrap();
            let o = ops.drop_last();
            if operator_precedence(tc).unwrap() > operator_precedence(ic).unwrap() {
                lemma_process_by_precedence(o, incoming, r);
            } else {
                let pushed2 = o.push(incoming);
                assert(pushed2.drop_last() =~= o);
                assert forall|i: int, j: int| 0 <= i < j < pushed2.len() implies token_precedence(
                    #[trigger] pushed2[i],
                ) < token_precedence(#[trigger] pushed2[j]) by {
                    if j == k - 1 {
                        assert(token_precedence(ops[i]) < token_precedence(ops[k - 1]));
                    } else {
                        assert(pushed2[j] == ops[j]);
                    }
                    assert(pushed2[i] == ops[i]);
                }
                assert forall|i: int| 0 <= i < r.len() && i < pushed2.len() implies node_precedence(
                    #[trigger] r[i],
                ) >= token_precedence(pushed2[i]) by {
                    if i < k - 1 {
                        assert(pushed2[i] == o[i]);
                    }
                }
                assert forall|i: int| 1 <= i < r.len() implies node_precedence(#[trigger] r[i])
                    > token_precedence(pushed2[i - 1]) by {
                    assert(pushed2[i - 1] == o[i - 1]);
                }
            }
        }
    }
}

proof fn lemma_finish_by_precedence(ops: Seq<Token>, operands: Seq<Node>)
    requires
        forall|i: int| 0 <= i < ops.len() ==> is_operator_token(#[trigger] ops[i]),
        forall|i: int, j: int|
            0 <= i < j < ops.len() ==> token_precedence(#[trigger] ops[i]) < token_precedence(
                #[trigger] ops[j],
            ),
        operands.len() == ops.len() + 1,
        forall|i: int| 0 <= i < operands.len() ==> respects_precedence(#[trigger] operands[i]),
        forall|i: int|
            0 <= i < operands.len() && i < ops.len() ==> node_precedence(#[trigger] operands[i])
                >= token_precedence(ops[i]),
        forall|i: int|
            1 <= i < operands.len() ==> node_precedence(#[trigger] operands[i]) > token_precedence(
                ops[i - 1],
            ),
    ensures
        finish_spec(ops, operands) matches Some(n) && n.len() == 1 && respects_precedence(n[0]),
    decreases ops.len(),
{
    if ops.len() > 0 {
        lemma_reduce_by_precedence(ops, operands);
        let o = ops.drop_last();
        let r = reduce(operands, ops.last()).unwrap();
        assert forall|i: int, j: int| 0 <= i < j < o.len() implies token_precedence(
            #[trigger] o[i],
        ) < token_precedence(#[trigger] o[j]) by {
            assert(o[i] == ops[i] && o[j] == ops[j]);
        }
        lemma_finish_by_precedence(o, r);
    }
}

proof fn lemma_feed_all_by_precedence(ts: Seq<Token>)
    requires
        expression_state(ts) is Some,
        no_parens(ts),
    ensures
        feed_all(ts) matches Some((o, n)) && stacks_by_precedence(
            o,
            n,
            expression_state(ts).unwrap().1,
        ),
    decreases ts.len(),
{
    if ts.len() > 0 {
        let prev = ts.drop_last();
        let t = ts.last();
        assert(no_parens(prev)) by {
            assert forall|i: int| 0 <= i < prev.len() implies !((#[trigger] prev[i]).token_type is Parenthesis) by {
                assert(prev[i] == ts[i]);
            }
        }
        assert(!(ts[ts.len() - 1].token_type is Parenthesis));
        lemma_feed_all_by_precedence(prev);
        let (o, n) = feed_all(prev).unwrap();
        assert(feed_all(ts) == feed(feed_all(prev), t));
        match t.token_type {
            TokenCategory::Constant | TokenCategory::Variable => {
                let n2 = n.push(Node::Terminal(t, 0));
                assert forall|i: int| 1 <= i < n2.len() implies node_precedence(#[trigger] n2[i])
                    > token_precedence(o[i - 1]) by {
                    lemma_precedence_bounds(o[i - 1]);
                    if i < n.len() {
                        assert(n2[i] == n[i]);
                    }
                }
                assert forall|i: int| 0 <= i < n2.len() && i < o.len() implies node_precedence(
                    #[trigger] n2[i],
                ) >= token_precedence(o[i]) by {
                    assert(n2[i] == n[i]);
                }
                assert forall|i: int| 0 <= i < n2.len() implies respects_precedence(#[trigger] n2[i]) by {
                    if i < n.len() {
                        assert(n2[i] == n[i]);
                    }
                }
            },
            TokenCategory::Operator => {
                lemma_precedence_bounds(t);
                lemma_process_by_precedence(o, t, n);
            },
            _ => {},
        }
    }
}

/// On a well-formed expression without parentheses, building groups by precedence, and to
/// the left among operators of equal precedence (see `respects_precedence`).
pub proof fn lemma_parse_respects_precedence(tokens: Seq<Token>)
    requires
        is_well_formed_expression(tokens),
        no_parens(tokens),
    ensures
        parse_tokens(tokens) matches Some(n) && respects_precedence(n),
{
    lemma_feed_all_by_precedence(tokens);
    let (o, n) = feed_all(tokens).unwrap();
    lemma_finish_by_precedence(o, n);
}

} // verus!
