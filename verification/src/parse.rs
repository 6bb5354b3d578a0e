//! Building an expression tree from tokens, by operator precedence.
use vstd::prelude::*;
use std::cmp::Ordering;
use std::collections::VecDeque;
use crate::token::{Token, TokenCategory, first_non_cr, get_first_char};
use crate::tree::{Node, well_shaped};

verus! {

/// The binding strength of an operator: powers bind tightest, then products and quotients,
/// then sums and differences, and equations loosest.
pub open spec fn operator_precedence(c: char) -> Option<int> {
    if c == '^' {
        Some(2)
    } else if c == '*' || c == '/' {
        Some(1)
    } else if c == '+' || c == '-' {
        Some(0)
    } else if c == '=' {
        Some(-1)
    } else {
        None
    }
}

/// How the precedence of the first operator compares with that of the second.
pub open spec fn precedence_order(a: char, b: char) -> Ordering {
    let pa = operator_precedence(a).unwrap();
    let pb = operator_precedence(b).unwrap();
    if pa < pb {
        Ordering::Less
    } else if pa > pb {
        Ordering::Greater
    } else {
        Ordering::Equal
    }
}

const OPERATOR_PRECEDENCE_KEYS: [char; 6] = ['^', '*', '/', '+', '-', '='];

const OPERATOR_PRECEDENCE_VALUES: [i32; 6] = [2, 1, 1, 0, 0, -1];

/// Whether the character is one of the operators.
pub fn is_operator_char(c: char) -> (r: bool)
    ensures
        r == (operator_precedence(c) is Some),
{
    c == '^' || c == '*' || c == '/' || c == '+' || c == '-' || c == '='
}

/// Looks the operator up in the table of precedences.
fn precedence_of(operator: &char) -> (r: i32)
    requires
        operator_precedence(*operator) is Some,
    ensures
        r == operator_precedence(*operator).unwrap(),
{
    let keys = OPERATOR_PRECEDENCE_KEYS;
    let values = OPERATOR_PRECEDENCE_VALUES;
    let mut i: usize = 0;
    while i < 6
        invariant
            i <= 6,
            keys@ == seq!['^', '*', '/', '+', '-', '='],
            values@ == seq![2i32, 1i32, 1i32, 0i32, 0i32, -1i32],
            forall|j: int| 0 <= j < i ==> keys@[j] != *operator,
            operator_precedence(*operator) is Some,
        decreases 6 - i,
    {
        if keys[i] == *operator {
            return values[i];
        }
        i = i + 1;
    }
    proof {
        assert(keys@[0] != *operator && keys@[1] != *operator && keys@[2] != *operator);
        assert(keys@[3] != *operator && keys@[4] != *operator && keys@[5] != *operator);
    }
    0
}

/// Compares the precedences of two operators.
pub fn compare_operator_precedence(operator1: &char, operator2: &char) -> (r: Ordering)
    requires
        operator_precedence(*operator1) is Some,
        operator_precedence(*operator2) is Some,
    ensures
        r == precedence_order(*operator1, *operator2),
{
    let operator_precedence = precedence_of(operator1);
    let token_precedence = precedence_of(operator2);
    if operator_precedence < token_precedence {
        Ordering::Less
    } else if operator_precedence > token_precedence {
        Ordering::Greater
    } else {
        Ordering::Equal
    }
}


/// The first character of a token's text that is not a carriage return.
pub open spec fn lead_char(t: Token) -> Option<char> {
    first_non_cr(t.token@)
}

/// The operand stack after combining its two top operands under the operator: the top one
/// becomes the second operand. None when fewer than two operands wait.
pub open spec fn reduce(operands: Seq<Node>, op: Token) -> Option<Seq<Node>> {
    if operands.len() < 2 {
        None
    } else {
        let child1 = operands.last();
        let child2 = operands.drop_last().last();
        Some(
            operands.drop_last().drop_last().push(
                Node::Branching(op, Box::new(child2), Box::new(child1), 0),
            ),
        )
    }
}

/// The stacks after an operator arrives: it waits on an empty stack, above an opening
/// parenthesis, or above an operator that binds less tightly; an operator on top that binds
/// as tightly is applied and the new one waits; one that binds more tightly is applied and
/// the new one arrives again. None when an operand is missing, or a token is not an operator.
pub open spec fn process_spec(ops: Seq<Token>, incoming: Token, operands: Seq<Node>) -> Option<
    (Seq<Token>, Seq<Node>),
>
    decreases ops.len(),
{
    if ops.len() == 0 {
        Some((ops.push(incoming), operands))
    } else {
        let top = ops.last();
        match lead_char(top) {
            None => None,
            Some(tc) => if tc == '(' {
                Some((ops.push(incoming), operands))
            } else {
                match lead_char(incoming) {
                    None => None,
                    Some(ic) => if operator_precedence(tc) is None || operator_precedence(
                        ic,
                    ) is None {
                        None
                    } else if operator_precedence(tc).unwrap() < operator_precedence(ic).unwrap() {
                        Some((ops.push(incoming), operands))
                    } else {
                        match reduce(operands, top) {
                            None => None,
                            Some(reduced) => if operator_precedence(tc).unwrap()
                                > operator_precedence(ic).unwrap() {
                                process_spec(ops.drop_last(), incoming, reduced)
                            } else {
                                Some((ops.drop_last().push(incoming), reduced))
                            },
                        }
                    },
                }
            },
        }
    }
}

/// Puts a branching node made of the token and the two operands on the stack; `child2` is
/// its first operand.
pub fn push_new_node_to_stack(
    stack: &mut VecDeque<Node>,
    node_token: Token,
    child1: Node,
    child2: Node,
    index: usize,
)
    ensures
        final(stack)@ == old(stack)@.push(
            Node::Branching(node_token, Box::new(child2), Box::new(child1), index),
        ),
{
    stack.push_back(Node::Branching(node_token, Box::new(child2), Box::new(child1), index));
}

/// Takes the two top operands and the top operator and puts their node on the operand stack.
fn reduce_top(operator_stack: &mut VecDeque<Token>, operands: &mut VecDeque<Node>) -> (r: bool)
    requires
        old(operator_stack)@.len() > 0,
    ensures
        r == (reduce(old(operands)@, old(operator_stack)@.last()) is Some),
        r ==> final(operands)@ == reduce(old(operands)@, old(operator_stack)@.last()).unwrap()
            && final(operator_stack)@ == old(operator_stack)@.drop_last(),
{
    if operands.len() < 2 {
        return false;
    }
    let child1 = match operands.pop_back() {
        Some(n) => n,
        None => {
            return false;
        },
    };
    let child2 = match operands.pop_back() {
        Some(n) => n,
        None => {
            return false;
        },
    };
    let op = match operator_stack.pop_back() {
        Some(t) => t,
        None => {
            return false;
        },
    };
    push_new_node_to_stack(operands, op, child1, child2, 0);
    true
}

/// Brings an operator onto the stacks (see `process_spec`); none where an operand is missing
/// or a token is not an operator.
pub fn process_operator(
    operator_stack: VecDeque<Token>,
    incoming: Token,
    operands: &mut VecDeque<Node>,
) -> (r: Option<VecDeque<Token>>)
    ensures
        r is Some <==> process_spec(operator_stack@, incoming, old(operands)@) is Some,
        r matches Some(ops) ==> (ops@, final(operands)@) == process_spec(
            operator_stack@,
            incoming,
            old(operands)@,
        ).unwrap(),
    decreases operator_stack@.len(),
{
    let mut operator_stack = operator_stack;
    let n = operator_stack.len();
    if n == 0 {
        operator_stack.push_back(incoming);
        return Some(operator_stack);
    }
    let top_char = match get_first_char(&operator_stack[n - 1].token) {
        Some(c) => c,
        None => {
            return None;
        },
    };
    if top_char == '(' {
        operator_stack.push_back(incoming);
        return Some(operator_stack);
    }
    let incoming_char = match get_first_char(&incoming.token) {
        Some(c) => c,
        None => {
            return None;
        },
    };
    if !is_operator_char(top_char) || !is_operator_char(incoming_char) {
        return None;
    }
    match compare_operator_precedence(&top_char, &incoming_char) {
        Ordering::Less => {
            operator_stack.push_back(incoming);
            Some(operator_stack)
        },
        Ordering::Greater => {
            if !reduce_top(&mut operator_stack, operands) {
                return None;
            }
            process_operator(operator_stack, incoming, operands)
        },
        Ordering::Equal => {
            if !reduce_top(&mut operator_stack, operands) {
                return None;
            }
            operator_stack.push_back(incoming);
            Some(operator_stack)
        },
    }
}


/// Whether a token's text starts with an operator.
pub open spec fn is_operator_lead(t: Token) -> bool {
    lead_char(t) matches Some(c) && operator_precedence(c) is Some
}

/// The precedence of an operator token.
pub open spec fn lead_precedence(t: Token) -> int {
    operator_precedence(lead_char(t).unwrap()).unwrap()
}

/// Whether every token on an operator stack is an opening parenthesis or an operator.
pub open spec fn operator_stack_ok(ops: Seq<Token>) -> bool {
    forall|k: int|
        0 <= k < ops.len() ==> lead_char(#[trigger] ops[k]) == Some('(') || is_operator_lead(
            ops[k],
        )
}

/// The operators that wait above the nearest opening parenthesis, bottom first; all of them
/// where no parenthesis waits.
pub open spec fn above_open(ops: Seq<Token>) -> Seq<Token>
    decreases ops.len(),
{
    if ops.len() == 0 {
        ops
    } else if lead_char(ops.last()) == Some('(') {
        Seq::empty()
    } else {
        above_open(ops.drop_last()).push(ops.last())
    }
}

/// Whether the precedences of the operators rise strictly from the bottom to the top.
pub open spec fn rising(s: Seq<Token>) -> bool {
    forall|i: int, j: int|
        0 <= i < j < s.len() ==> lead_precedence(#[trigger] s[i]) < lead_precedence(
            #[trigger] s[j],
        )
}

/// When an operator arrives (see `process_operator`) on a stack whose operators above the
/// nearest opening parenthesis rise strictly in precedence, with more operands waiting than
/// those operators: it succeeds; the new operator ends on top, above what is left of the old
/// stack, which is a part of it from the bottom; the operators above the nearest opening
/// parenthesis still rise strictly; and each operator taken off the stack took two operands
/// and gave back one.
pub proof fn lemma_process_keeps_rising(ops: Seq<Token>, incoming: Token, operands: Seq<Node>)
    requires
        is_operator_lead(incoming),
        operator_stack_ok(ops),
        rising(above_open(ops)),
        operands.len() > above_open(ops).len(),
    ensures
        process_spec(ops, incoming, operands) matches Some((new_ops, new_operands)) && {
            &&& new_ops.len() >= 1
            &&& new_ops.len() <= ops.len() + 1
            &&& new_ops.last() == incoming
            &&& new_ops.drop_last() == ops.subrange(0, new_ops.len() - 1)
            &&& operator_stack_ok(new_ops)
            &&& rising(above_open(new_ops))
            &&& new_operands.len() == operands.len() - (ops.len() + 1 - new_ops.len())
        },
    decreases ops.len(),
{
    let n = ops.len() as int;
    if n == 0 {
        assert(ops.push(incoming).drop_last() =~= ops);
        assert(above_open(ops.push(incoming).drop_last()) =~= Seq::<Token>::empty());
        assert(above_open(ops.push(incoming)) =~= seq![incoming]);
    } else {
        let top = ops.last();
        assert(ops.push(incoming).drop_last() =~= ops);
        assert(ops.subrange(0, n) =~= ops);
        assert(operator_stack_ok(ops.push(incoming))) by {
            assert forall|k: int| 0 <= k < n + 1 implies lead_char(#[trigger] ops.push(incoming)[k])
                == Some('(') || is_operator_lead(ops.push(incoming)[k]) by {
                if k < n {
                    assert(ops.push(incoming)[k] == ops[k]);
                }
            }
        }
        assert(operator_stack_ok(ops.drop_last())) by {
            assert forall|k: int| 0 <= k < n - 1 implies lead_char(#[trigger] ops.drop_last()[k])
                == Some('(') || is_operator_lead(ops.drop_last()[k]) by {
                assert(ops.drop_last()[k] == ops[k]);
            }
        }
        assert(lead_char(top) == Some('(') || is_operator_lead(ops[n - 1]));
        if lead_char(top) == Some('(') {
            assert(above_open(ops.push(incoming)) =~= seq![incoming]);
        } else {
            let a = above_open(ops);
            let a0 = above_open(ops.drop_last());
            assert(a == a0.push(top));
            let tc = lead_char(top).unwrap();
            let ic = lead_char(incoming).unwrap();
            assert(a0.len() + 1 == a.len());
            assert forall|i: int| 0 <= i < a0.len() implies lead_precedence(#[trigger] a0[i])
                < lead_precedence(top) by {
                assert(a[i] == a0[i]);
                assert(a[a0.len() as int] == top);
            }
            assert(rising(a0)) by {
                assert forall|i: int, j: int| 0 <= i < j < a0.len() implies lead_precedence(
                    #[trigger] a0[i],
                ) < lead_precedence(#[trigger] a0[j]) by {
                    assert(a[i] == a0[i]);
                    assert(a[j] == a0[j]);
                }
            }
            if operator_precedence(tc).unwrap() < operator_precedence(ic).unwrap() {
                let b = above_open(ops.push(incoming));
                assert(b == a.push(incoming));
                assert forall|i: int, j: int| 0 <= i < j < b.len() implies lead_precedence(
                    #[trigger] b[i],
                ) < lead_precedence(#[trigger] b[j]) by {
                    if j < a.len() {
                        assert(b[i] == a[i]);
                        assert(b[j] == a[j]);
                    } else {
                        assert(b[i] == a[i]);
                        assert(b[j] == incoming);
                        if i < a0.len() {
                            assert(a[i] == a0[i]);
                        }
                    }
                }
            } else {
                let reduced = reduce(operands, top).unwrap();
                assert(reduced.len() == operands.len() - 1);
                if operator_precedence(tc).unwrap() > operator_precedence(ic).unwrap() {
                    lemma_process_keeps_rising(ops.drop_last(), incoming, reduced);
                    let (new_ops, new_operands) = process_spec(ops.drop_last(), incoming, reduced).unwrap();
                    assert(new_ops.drop_last() =~= ops.subrange(0, new_ops.len() - 1));
                } else {
                    let new_ops = ops.drop_last().push(incoming);
                    assert(new_ops.drop_last() =~= ops.subrange(0, n - 1));
                    assert(operator_stack_ok(new_ops)) by {
                        assert forall|k: int| 0 <= k < n implies lead_char(#[trigger] new_ops[k])
                            == Some('(') || is_operator_lead(new_ops[k]) by {
                            if k < n - 1 {
                                assert(new_ops[k] == ops[k]);
                            }
                        }
                    }
                    let b = above_open(new_ops);
                    assert(new_ops.drop_last() =~= ops.drop_last());
                    assert(b == a0.push(incoming));
                    assert forall|i: int, j: int| 0 <= i < j < b.len() implies lead_precedence(
                        #[trigger] b[i],
                    ) < lead_precedence(#[trigger] b[j]) by {
                        if j < a0.len() {
                            assert(b[i] == a0[i]);
                            assert(b[j] == a0[j]);
                        } else {
                            assert(b[i] == a0[i]);
                            assert(b[j] == incoming);
                        }
                    }
                }
            }
        }
    }
}
/// The operators fall into four classes, from the loosest binding to the tightest: `=`; `+`
/// and `-`; `*` and `/`; `^`. Two operators of one class compare equal, and one of a looser
/// class compares less than one of a tighter class.
pub proof fn lemma_precedence_classes(a: char, b: char)
    requires
        a == '^' || a == '*' || a == '/' || a == '+' || a == '-' || a == '=',
        b == '^' || b == '*' || b == '/' || b == '+' || b == '-' || b == '=',
    ensures
        (precedence_order(a, b) == Ordering::Equal) == (a == b || ((a == '*' || a == '/') && (b
            == '*' || b == '/')) || ((a == '+' || a == '-') && (b == '+' || b == '-'))),
        (precedence_order(a, b) == Ordering::Less) == ((a == '=' && b != '=') || ((a == '+' || a
            == '-') && (b == '*' || b == '/' || b == '^')) || ((a == '*' || a == '/') && b == '^')),
{
}

/// Whether `t` is an operator token whose text is the single character `c`.
pub open spec fn operator_token(t: Token, c: char) -> bool {
    t.token_type == TokenCategory::Operator && t.token@ == seq![c]
}

/// Whether `t` is a constant or a variable.
pub open spec fn operand_token(t: Token) -> bool {
    t.token_type == TokenCategory::Constant || t.token_type == TokenCategory::Variable
}

/// The node of `op` applied to `left` and `right`, as the parser builds it.
pub open spec fn applied(op: Token, left: Node, right: Node) -> Node {
    Node::Branching(op, Box::new(left), Box::new(right), 0)
}

/// The stacks after the first three tokens `a o1 b`.
proof fn lemma_feed_three(a: Token, o1: Token, b: Token, x1: char)
    requires
        operand_token(a),
        operand_token(b),
        operator_token(o1, x1),
        x1 == '^' || x1 == '*' || x1 == '/' || x1 == '+' || x1 == '-' || x1 == '=',
    ensures
        feed_all(seq![a, o1, b]) == Some(
            (seq![o1], seq![Node::Terminal(a, 0), Node::Terminal(b, 0)]),
        ),
{
    let e = Seq::<Token>::empty();
    let ta = Node::Terminal(a, 0);
    let tb = Node::Terminal(b, 0);
    assert(feed_all(e) == Some((e, Seq::<Node>::empty())));
    assert(seq![a].drop_last() =~= e);
    assert(Seq::<Node>::empty().push(ta) =~= seq![ta]);
    assert(feed_all(seq![a]) == Some((e, seq![ta])));
    assert(seq![a, o1].drop_last() =~= seq![a]);
    assert(e.push(o1) =~= seq![o1]);
    assert(feed_all(seq![a, o1]) == Some((seq![o1], seq![ta])));
    assert(seq![a, o1, b].drop_last() =~= seq![a, o1]);
    assert(seq![ta].push(tb) =~= seq![ta, tb]);
}

/// Of `a o1 b o2 c`, where `o2` binds more tightly than `o1`, the tree applies `o1` to `a` and
/// to `o2` applied to `b` and `c`: `1+6/2` is `1+(6/2)`, `x=2*y` is `x=(2*y)`, and `2*x^3` is
/// `2*(x^3)`.
pub proof fn lemma_tighter_operator_binds_first(
    a: Token,
    o1: Token,
    b: Token,
    o2: Token,
    c: Token,
    x1: char,
    x2: char,
)
    requires
        operand_token(a),
        operand_token(b),
        operand_token(c),
        operator_token(o1, x1),
        operator_token(o2, x2),
        (x1 == '=' && (x2 == '+' || x2 == '-' || x2 == '*' || x2 == '/' || x2 == '^')) || ((x1
            == '+' || x1 == '-') && (x2 == '*' || x2 == '/' || x2 == '^')) || ((x1 == '*' || x1
            == '/') && x2 == '^'),
    ensures
        parse_tokens(seq![a, o1, b, o2, c]) == Some(
            applied(
                o1,
                Node::Terminal(a, 0),
                applied(o2, Node::Terminal(b, 0), Node::Terminal(c, 0)),
            ),
        ),
{
    lemma_feed_three(a, o1, b, x1);
    let ta = Node::Terminal(a, 0);
    let tb = Node::Terminal(b, 0);
    let tc = Node::Terminal(c, 0);
    let t = seq![a, o1, b, o2, c];
    assert(t.drop_last() =~= seq![a, o1, b, o2]);
    assert(seq![a, o1, b, o2].drop_last() =~= seq![a, o1, b]);
    assert(lead_char(o1) == Some(x1));
    assert(lead_char(o2) == Some(x2));
    assert(feed_all(seq![a, o1, b, o2]) == Some((seq![o1, o2], seq![ta, tb]))) by {
        assert(seq![o1].push(o2) =~= seq![o1, o2]);
    }
    let st = feed_all(t).unwrap();
    assert(st == (seq![o1, o2], seq![ta, tb, tc])) by {
        assert(seq![ta, tb].push(tc) =~= seq![ta, tb, tc]);
    }
    let r1 = reduce(seq![ta, tb, tc], o2).unwrap();
    assert(r1 =~= seq![ta, applied(o2, tb, tc)]);
    assert(seq![o1, o2].drop_last() =~= seq![o1]);
    let r2 = reduce(r1, o1).unwrap();
    assert(r2 =~= seq![applied(o1, ta, applied(o2, tb, tc))]);
    assert(seq![o1].drop_last() =~= Seq::<Token>::empty());
    assert(finish_spec(Seq::<Token>::empty(), r2) == Some(r2));
    assert(finish_spec(seq![o1], r1) == Some(r2));
    assert(finish_spec(seq![o1, o2], seq![ta, tb, tc]) == Some(r2));
}

/// Of `a o1 b o2 c`, where `o1` binds at least as tightly as `o2`, the tree applies `o2` to
/// `o1` applied to `a` and `b`, and to `c`: `6/2*3` is `(6/2)*3`, `1-2+3` is `(1-2)+3`, and
/// `2*x+1` is `(2*x)+1`.
pub proof fn lemma_looser_operator_applies_last(
    a: Token,
    o1: Token,
    b: Token,
    o2: Token,
    c: Token,
    x1: char,
    x2: char,
)
    requires
        operand_token(a),
        operand_token(b),
        operand_token(c),
        operator_token(o1, x1),
        operator_token(o2, x2),
        (x2 == '=' && (x1 == '=' || x1 == '+' || x1 == '-' || x1 == '*' || x1 == '/' || x1
            == '^')) || ((x2 == '+' || x2 == '-') && (x1 == '+' || x1 == '-' || x1 == '*' || x1
            == '/' || x1 == '^')) || ((x2 == '*' || x2 == '/') && (x1 == '*' || x1 == '/' || x1
            == '^')) || (x2 == '^' && x1 == '^'),
    ensures
        parse_tokens(seq![a, o1, b, o2, c]) == Some(
            applied(
                o2,
                applied(o1, Node::Terminal(a, 0), Node::Terminal(b, 0)),
                Node::Terminal(c, 0),
            ),
        ),
{
    lemma_feed_three(a, o1, b, x1);
    let ta = Node::Terminal(a, 0);
    let tb = Node::Terminal(b, 0);
    let tc = Node::Terminal(c, 0);
    let t = seq![a, o1, b, o2, c];
    assert(t.drop_last() =~= seq![a, o1, b, o2]);
    assert(seq![a, o1, b, o2].drop_last() =~= seq![a, o1, b]);
    assert(lead_char(o1) == Some(x1));
    assert(lead_char(o2) == Some(x2));
    let r1 = reduce(seq![ta, tb], o1).unwrap();
    assert(r1 =~= seq![applied(o1, ta, tb)]);
    assert(seq![o1].drop_last() =~= Seq::<Token>::empty());
    assert(Seq::<Token>::empty().push(o2) =~= seq![o2]);
    assert(process_spec(Seq::<Token>::empty(), o2, r1) == Some((seq![o2], r1)));
    assert(process_spec(seq![o1], o2, seq![ta, tb]) == Some((seq![o2], r1)));
    assert(feed_all(seq![a, o1, b, o2]) == Some((seq![o2], r1)));
    let st = feed_all(t).unwrap();
    assert(st == (seq![o2], r1.push(tc)));
    let r2 = reduce(r1.push(tc), o2).unwrap();
    assert(r2 =~= seq![applied(o2, applied(o1, ta, tb), tc)]);
    assert(seq![o2].drop_last() =~= Seq::<Token>::empty());
    assert(finish_spec(Seq::<Token>::empty(), r2) == Some(r2));
    assert(finish_spec(seq![o2], r1.push(tc)) == Some(r2));
}


/// The stacks after a closing parenthesis: the operators above the nearest opening
/// parenthesis are applied, top first, and that parenthesis is taken off. None when an
/// operand is missing.
pub open spec fn close_spec(ops: Seq<Token>, operands: Seq<Node>) -> Option<(Seq<Token>, Seq<Node>)>
    decreases ops.len(),
{
    if ops.len() == 0 {
        Some((ops, operands))
    } else if ops.last().token_type == TokenCategory::Parenthesis(true) {
        Some((ops.drop_last(), operands))
    } else {
        match reduce(operands, ops.last()) {
            None => None,
            Some(reduced) => close_spec(ops.drop_last(), reduced),
        }
    }
}

/// The stacks after one more token: a constant or a variable becomes a terminal operand, an
/// operator arrives (see `process_spec`), an opening parenthesis waits on the operator stack,
/// and a closing one closes (see `close_spec`).
pub open spec fn feed(state: Option<(Seq<Token>, Seq<Node>)>, tok: Token) -> Option<
    (Seq<Token>, Seq<Node>),
> {
    match state {
        None => None,
        Some((ops, operands)) => match tok.token_type {
            TokenCategory::Constant | TokenCategory::Variable => Some(
                (ops, operands.push(Node::Terminal(tok, 0))),
            ),
            TokenCategory::Operator => process_spec(ops, tok, operands),
            TokenCategory::Parenthesis(true) => Some((ops.push(tok), operands)),
            TokenCategory::Parenthesis(false) => close_spec(ops, operands),
        },
    }
}

/// The stacks after all the tokens, in order, starting from empty stacks.
pub open spec fn feed_all(tokens: Seq<Token>) -> Option<(Seq<Token>, Seq<Node>)>
    decreases tokens.len(),
{
    if tokens.len() == 0 {
        Some((Seq::empty(), Seq::empty()))
    } else {
        feed(feed_all(tokens.drop_last()), tokens.last())
    }
}

/// The operand stack after applying every waiting operator, top first.
pub open spec fn finish_spec(ops: Seq<Token>, operands: Seq<Node>) -> Option<Seq<Node>>
    decreases ops.len(),
{
    if ops.len() == 0 {
        Some(operands)
    } else {
        match reduce(operands, ops.last()) {
            None => None,
            Some(reduced) => finish_spec(ops.drop_last(), reduced),
        }
    }
}

/// The tree built from the tokens: the bottom operand once every operator is applied. None
/// where an operand is missing, a token is not an operator, or no operand is left.
pub open spec fn parse_tokens(tokens: Seq<Token>) -> Option<Node> {
    match feed_all(tokens) {
        None => None,
        Some((ops, operands)) => match finish_spec(ops, operands) {
            None => None,
            Some(result) => if result.len() > 0 {
                Some(result[0])
            } else {
                None
            },
        },
    }
}

/// Applies the operators above the nearest opening parenthesis (see `close_spec`).
fn close_parenthesis(operator_stack: &mut VecDeque<Token>, operand_stack: &mut VecDeque<Node>) -> (r:
    bool)
    ensures
        r == (close_spec(old(operator_stack)@, old(operand_stack)@) is Some),
        r ==> (final(operator_stack)@, final(operand_stack)@) == close_spec(
            old(operator_stack)@,
            old(operand_stack)@,
        ).unwrap(),
{
    loop
        invariant
            close_spec(operator_stack@, operand_stack@) == close_spec(
                old(operator_stack)@,
                old(operand_stack)@,
            ),
        decreases operator_stack@.len(),
    {
        let n = operator_stack.len();
        if n == 0 {
            return true;
        }
        if operator_stack[n - 1].token_type == TokenCategory::Parenthesis(true) {
            let _ = operator_stack.pop_back();
            return true;
        }
        if !reduce_top(operator_stack, operand_stack) {
            return false;
        }
    }
}

/// Builds the expression tree from the tokens by operator precedence (see `parse_tokens`).
/// Every node gets the index 0. None where the tokens do not make an expression in that way.
pub fn build_expression_tree(tokens: Vec<Token>) -> (r: Option<Node>)
    ensures
        r == parse_tokens(tokens@),
{
    let ghost given = tokens@;
    let mut work = tokens;
    let mut operand_stack: VecDeque<Node> = VecDeque::with_capacity(work.len());
    let mut operator_stack: VecDeque<Token> = VecDeque::with_capacity(5);
    let mut loop_index: usize = 0;
    let ghost mut pos: int = 0;
    assert(given.take(0) =~= Seq::<Token>::empty());
    assert(work@.skip(0) =~= given.skip(0));
    while loop_index < work.len()
        invariant
            given == tokens@,
            loop_index <= work.len(),
            0 <= pos <= given.len(),
            work@.skip(loop_index as int) == given.skip(pos),
            feed_all(given.take(pos)) == Some((operator_stack@, operand_stack@)),
        decreases work.len() - loop_index,
    {
        let ghost old_tokens = work@;
        let ghost old_state = (operator_stack@, operand_stack@);
        assert(work@.skip(loop_index as int).len() == given.skip(pos).len());
        assert(given[pos] == work@[loop_index as int]) by {
            assert(work@.skip(loop_index as int)[0] == given.skip(pos)[0]);
        }
        assert(old_tokens.skip(loop_index + 1) =~= given.skip(pos + 1)) by {
            assert(old_tokens.skip(loop_index + 1) =~= old_tokens.skip(loop_index as int).drop_first());
            assert(given.skip(pos + 1) =~= given.skip(pos).drop_first());
        }
        assert(given.take(pos + 1).drop_last() =~= given.take(pos));
        assert(given.take(pos + 1).last() == given[pos]);
        let category = work[loop_index].token_type;
        match category {
            TokenCategory::Constant | TokenCategory::Variable => {
                let t = work.remove(loop_index);
                operand_stack.push_back(Node::Terminal(t, 0));
            },
            TokenCategory::Operator => {
                let incoming_operator = work.remove(loop_index);
                match process_operator(operator_stack, incoming_operator, &mut operand_stack) {
                    Some(stack) => {
                        operator_stack = stack;
                    },
                    None => {
                        proof {
                            lemma_feed_all_none_stays(given, pos + 1);
                        }
                        return None;
                    },
                }
            },
            TokenCategory::Parenthesis(true) => {
                let t = work.remove(loop_index);
                operator_stack.push_back(t);
            },
            TokenCategory::Parenthesis(false) => {
                if !close_parenthesis(&mut operator_stack, &mut operand_stack) {
                    proof {
                        lemma_feed_all_none_stays(given, pos + 1);
                    }
                    return None;
                }
                loop_index = loop_index + 1;
            },
        }
        proof {
            pos = pos + 1;
            if category != TokenCategory::Parenthesis(false) {
                assert(work@.skip(loop_index as int) =~= old_tokens.skip(loop_index + 1));
            }
            assert(work@.skip(loop_index as int) =~= given.skip(pos));
        }
    }
    assert(pos == given.len()) by {
        assert(given.skip(pos).len() == 0);
    }
    assert(given.take(pos) =~= given);
    assert(parse_tokens(given) == match finish_spec(operator_stack@, operand_stack@) {
        None => None,
        Some(result) => if result.len() > 0 {
            Some(result[0])
        } else {
            None
        },
    });
    while operator_stack.len() > 0
        invariant
            given == tokens@,
            parse_tokens(given) == match finish_spec(operator_stack@, operand_stack@) {
                None => None,
                Some(result) => if result.len() > 0 {
                    Some(result[0])
                } else {
                    None
                },
            },
            finish_spec(operator_stack@, operand_stack@) == finish_spec(
                feed_all(given).unwrap().0,
                feed_all(given).unwrap().1,
            ),
            feed_all(given) is Some,
        decreases operator_stack@.len(),
    {
        if !reduce_top(&mut operator_stack, &mut operand_stack) {
            return None;
        }
    }
    operand_stack.pop_front()
}

/// Once building fails, it stays failed.
proof fn lemma_feed_all_none_stays(tokens: Seq<Token>, k: int)
    requires
        0 <= k <= tokens.len(),
        feed_all(tokens.take(k)) is None,
    ensures
        feed_all(tokens) is None,
    decreases tokens.len() - k,
{
    if k == tokens.len() {
        assert(tokens.take(k) =~= tokens);
    } else {
        assert(tokens.take(k + 1).drop_last() =~= tokens.take(k));
        lemma_feed_all_none_stays(tokens, k + 1);
    }
}


/// Whether every waiting operator token is an operator or a parenthesis.
pub open spec fn operators_ok(ops: Seq<Token>) -> bool {
    forall|i: int|
        0 <= i < ops.len() ==> (#[trigger] ops[i]).token_type == TokenCategory::Operator
            || ops[i].token_type is Parenthesis
}

/// Whether every waiting operand is well-shaped.
pub open spec fn operands_ok(operands: Seq<Node>) -> bool {
    forall|i: int| 0 <= i < operands.len() ==> well_shaped(#[trigger] operands[i])
}

proof fn lemma_reduce_ok(operands: Seq<Node>, op: Token)
    requires
        operands_ok(operands),
        op.token_type == TokenCategory::Operator || op.token_type is Parenthesis,
    ensures
        reduce(operands, op) matches Some(r) ==> operands_ok(r),
{
    if operands.len() >= 2 {
        let r = reduce(operands, op).unwrap();
        assert forall|i: int| 0 <= i < r.len() implies well_shaped(#[trigger] r[i]) by {
            if i < r.len() - 1 {
                assert(r[i] == operands[i]);
            } else {
                assert(well_shaped(operands[operands.len() - 1]));
                assert(well_shaped(operands[operands.len() - 2]));
            }
        }
    }
}

proof fn lemma_process_ok(ops: Seq<Token>, incoming: Token, operands: Seq<Node>)
    requires
        operators_ok(ops),
        operands_ok(operands),
        incoming.token_type == TokenCategory::Operator,
    ensures
        process_spec(ops, incoming, operands) matches Some((o, n)) ==> operators_ok(o)
            && operands_ok(n),
    decreases ops.len(),
{
    if ops.len() > 0 {
        assert(operators_ok(ops.drop_last()));
        lemma_reduce_ok(operands, ops.last());
        if let Some(reduced) = reduce(operands, ops.last()) {
            lemma_process_ok(ops.drop_last(), incoming, reduced);
        }
        assert(operators_ok(ops.drop_last().push(incoming)));
    }
    assert(operators_ok(ops.push(incoming)));
}

proof fn lemma_close_ok(ops: Seq<Token>, operands: Seq<Node>)
    requires
        operators_ok(ops),
        operands_ok(operands),
    ensures
        close_spec(ops, operands) matches Some((o, n)) ==> operators_ok(o) && operands_ok(n),
    decreases ops.len(),
{
    if ops.len() > 0 {
        assert(operators_ok(ops.drop_last()));
        lemma_reduce_ok(operands, ops.last());
        if let Some(reduced) = reduce(operands, ops.last()) {
            lemma_close_ok(ops.drop_last(), reduced);
        }
    }
}

proof fn lemma_finish_ok(ops: Seq<Token>, operands: Seq<Node>)
    requires
        operators_ok(ops),
        operands_ok(operands),
    ensures
        finish_spec(ops, operands) matches Some(n) ==> operands_ok(n),
    decreases ops.len(),
{
    if ops.len() > 0 {
        assert(operators_ok(ops.drop_last()));
        lemma_reduce_ok(operands, ops.last());
        if let Some(reduced) = reduce(operands, ops.last()) {
            lemma_finish_ok(ops.drop_last(), reduced);
        }
    }
}

proof fn lemma_feed_all_ok(tokens: Seq<Token>)
    ensures
        feed_all(tokens) matches Some((o, n)) ==> operators_ok(o) && operands_ok(n),
    decreases tokens.len(),
{
    if tokens.len() > 0 {
        lemma_feed_all_ok(tokens.drop_last());
        if let Some((o, n)) = feed_all(tokens.drop_last()) {
            let t = tokens.last();
            match t.token_type {
                TokenCategory::Constant | TokenCategory::Variable => {
                    let n2 = n.push(Node::Terminal(t, 0));
                    assert forall|i: int| 0 <= i < n2.len() implies well_shaped(#[trigger] n2[i]) by {
                        if i < n.len() {
                            assert(n2[i] == n[i]);
                        }
                    }
                },
                TokenCategory::Operator => {
                    lemma_process_ok(o, t, n);
                },
                TokenCategory::Parenthesis(true) => {
                    assert(operators_ok(o.push(t)));
                },
                TokenCategory::Parenthesis(false) => {
                    lemma_close_ok(o, n);
                },
            }
        }
    }
}

/// Every tree that the parser builds is well-shaped: its terminals hold constants or
/// variables, and its branching nodes hold operators or parentheses.
pub proof fn lemma_parse_well_shaped(tokens: Seq<Token>)
    ensures
        parse_tokens(tokens) matches Some(n) ==> well_shaped(n),
{
    lemma_feed_all_ok(tokens);
    if let Some((o, n)) = feed_all(tokens) {
        lemma_finish_ok(o, n);
    }
}

} // verus!
