//! Expression trees: nodes, their indexes, and the questions the simplifier asks of them.
use vstd::prelude::*;
use crate::token::{Token, TokenCategory};

verus! {

/// A node of an expression tree. A branching node holds an operator and its two operands;
/// a terminal node holds a constant or a variable. The `usize` is the node's index: the root
/// is 1, and the children of the node with index `i` are `2 * i` and `2 * i + 1`.
#[derive(Debug)]
pub enum Node {
    Branching(Token, Box<Node>, Box<Node>, usize),
    Terminal(Token, usize),
}

/// The token held by a node.
pub open spec fn node_token(n: Node) -> Token {
    match n {
        Node::Branching(t, _, _, _) => t,
        Node::Terminal(t, _) => t,
    }
}

/// The index held by a node.
pub open spec fn node_index(n: Node) -> usize {
    match n {
        Node::Branching(_, _, _, i) => i,
        Node::Terminal(_, i) => i,
    }
}

/// The category of the token held by a node.
pub open spec fn node_category(n: Node) -> TokenCategory {
    node_token(n).token_type
}

/// The trees that the parser builds: terminals hold constants or variables, and branching
/// nodes hold operators (or an unmatched opening parenthesis).
pub open spec fn well_shaped(n: Node) -> bool
    decreases n,
{
    match n {
        Node::Terminal(t, _) => t.token_type == TokenCategory::Constant || t.token_type
            == TokenCategory::Variable,
        Node::Branching(t, c1, c2, _) => {
            &&& (t.token_type == TokenCategory::Operator || t.token_type is Parenthesis)
            &&& well_shaped(*c1)
            &&& well_shaped(*c2)
        },
    }
}

/// The first of a branching node's children, then the second, whose token has the category.
pub open spec fn immediate_child_of_type(n: Node, category: TokenCategory) -> Option<Node> {
    match n {
        Node::Terminal(..) => None,
        Node::Branching(_, c1, c2, _) => {
            if node_category(*c1) == category {
                Some(*c1)
            } else if node_category(*c2) == category {
                Some(*c2)
            } else {
                None
            }
        },
    }
}

/// The search that `get_any_child_of_type` makes: a terminal answers for itself; a branching
/// node looks at its two children, and then searches the first and then the second subtree.
pub open spec fn any_child_of_type(n: Node, category: TokenCategory) -> Option<Node>
    decreases n,
{
    match n {
        Node::Terminal(t, _) => if t.token_type == category {
            Some(n)
        } else {
            None
        },
        Node::Branching(_, c1, c2, _) => {
            if node_category(*c1) == category {
                Some(*c1)
            } else if node_category(*c2) == category {
                Some(*c2)
            } else if any_child_of_type(*c1, category) is Some {
                any_child_of_type(*c1, category)
            } else {
                any_child_of_type(*c2, category)
            }
        },
    }
}

/// Whether `n` holds a token of the category anywhere in the tree below and including it.
pub open spec fn contains_category(n: Node, category: TokenCategory) -> bool
    decreases n,
{
    node_category(n) == category || match n {
        Node::Terminal(..) => false,
        Node::Branching(_, c1, c2, _) => contains_category(*c1, category) || contains_category(
            *c2,
            category,
        ),
    }
}

/// Equality of branches up to swapping the operands of any branching node. Branching nodes
/// are compared by their tokens' categories only; terminals by their whole tokens.
pub open spec fn branch_equal(a: Node, b: Node) -> bool
    decreases a,
{
    if node_category(a) != node_category(b) {
        false
    } else {
        match a {
            Node::Terminal(t, _) => t@ == node_token(b)@,
            Node::Branching(_, c1, c2, _) => match b {
                Node::Branching(_, o1, o2, _) => (branch_equal(*c1, *o1) && branch_equal(*c2, *o2))
                    || (branch_equal(*c1, *o2) && branch_equal(*c2, *o1)),
                Node::Terminal(..) => false,
            },
        }
    }
}

/// Whether comparing `a` with `b` by branch equality runs to its end: it stops where a
/// branching node meets a terminal of the same category. Both pairings of the operands are
/// compared, the second operands only where the first ones are equal.
pub open spec fn comparable(a: Node, b: Node) -> bool
    decreases a,
{
    if node_category(a) != node_category(b) {
        true
    } else {
        match a {
            Node::Terminal(..) => true,
            Node::Branching(_, c1, c2, _) => match b {
                Node::Branching(_, o1, o2, _) => {
                    &&& comparable(*c1, *o1)
                    &&& branch_equal(*c1, *o1) ==> comparable(*c2, *o2)
                    &&& comparable(*c1, *o2)
                    &&& branch_equal(*c1, *o2) ==> comparable(*c2, *o1)
                },
                Node::Terminal(..) => false,
            },
        }
    }
}

/// Trees that the parser builds can always be compared.
pub proof fn lemma_well_shaped_comparable(a: Node, b: Node)
    requires
        well_shaped(a),
        well_shaped(b),
    ensures
        comparable(a, b),
    decreases a,
{
    if let Node::Branching(_, c1, c2, _) = a {
        if let Node::Branching(_, o1, o2, _) = b {
            lemma_well_shaped_comparable(*c1, *o1);
            lemma_well_shaped_comparable(*c2, *o2);
            lemma_well_shaped_comparable(*c1, *o2);
            lemma_well_shaped_comparable(*c2, *o1);
        }
    }
}

/// Whether the string is exactly the one character `c`.
pub fn text_is(s: &String, c: char) -> (r: bool)
    ensures
        r == (s@ == seq![c]),
{
    let t = s.as_str();
    if t.unicode_len() != 1 {
        assert(s@.len() != 1);
        return false;
    }
    let first = t.get_char(0);
    if first == c {
        assert(s@ =~= seq![c]);
        true
    } else {
        false
    }
}

/// A copy of a category value.
fn copy_category(c: &TokenCategory) -> (r: TokenCategory)
    ensures
        r == *c,
{
    *c
}

impl Clone for Token {
    fn clone(&self) -> (r: Token)
        ensures
            r == *self,
    {
        Token { token_type: copy_category(&self.token_type), token: self.token.clone() }
    }
}

impl Clone for Node {
    fn clone(&self) -> (r: Node)
        ensures
            r == *self,
        decreases self,
    {
        match self {
            Node::Branching(t, c1, c2, i) => {
                let a = (**c1).clone();
                let b = (**c2).clone();
                Node::Branching(t.clone(), Box::new(a), Box::new(b), *i)
            },
            Node::Terminal(t, i) => Node::Terminal(t.clone(), *i),
        }
    }
}

impl Node {
    /// The token that the node holds.
    pub fn get_token(&self) -> (r: &Token)
        ensures
            *r == node_token(*self),
    {
        match self {
            Node::Branching(token, ..) => token,
            Node::Terminal(token, _) => token,
        }
    }

    /// The node's index.
    pub fn index(&self) -> (r: usize)
        ensures
            r == node_index(*self),
    {
        match self {
            Node::Branching(_, _, _, index) => *index,
            Node::Terminal(_, index) => *index,
        }
    }

    /// Whether the node is a terminal.
    pub fn is_terminal(&self) -> (r: bool)
        ensures
            r == (*self is Terminal),
    {
        match self {
            Node::Terminal(..) => true,
            Node::Branching(..) => false,
        }
    }

    /// The first child, then the second, whose token has the category; none for a terminal.
    pub fn get_immediate_child_of_type(&self, category: TokenCategory) -> (r: Option<&Node>)
        ensures
            r is Some <==> immediate_child_of_type(*self, category) is Some,
            r matches Some(c) ==> *c == immediate_child_of_type(*self, category).unwrap(),
    {
        match self {
            Node::Terminal(..) => None,
            Node::Branching(_, child_1, child_2, _) => {
                if child_1.get_token().token_type == category {
                    Some(&**child_1)
                } else if child_2.get_token().token_type == category {
                    Some(&**child_2)
                } else {
                    None
                }
            },
        }
    }

    /// Searches the tree for a node whose token has the category (see `any_child_of_type`).
    pub fn get_any_child_of_type(&self, category: TokenCategory) -> (r: Option<&Node>)
        ensures
            r is Some <==> any_child_of_type(*self, category) is Some,
            r matches Some(c) ==> *c == any_child_of_type(*self, category).unwrap(),
        decreases self,
    {
        match self {
            Node::Terminal(token, _) => {
                if token.token_type == category {
                    Some(self)
                } else {
                    None
                }
            },
            Node::Branching(_, child1, child2, _) => {
                if child1.get_token().token_type == category {
                    Some(&**child1)
                } else if child2.get_token().token_type == category {
                    Some(&**child2)
                } else if let Some(thing) = child1.get_any_child_of_type(category) {
                    Some(thing)
                } else if let Some(thing) = child2.get_any_child_of_type(category) {
                    Some(thing)
                } else {
                    None
                }
            },
        }
    }

    /// Equality of branches up to swapping operands (see `branch_equal`).
    pub fn is_branch_equal_to(&self, other: &Node) -> (r: bool)
        requires
            comparable(*self, *other),
        ensures
            r == branch_equal(*self, *other),
        decreases self,
    {
        let other_token = other.get_token();
        if self.get_token().token_type != other_token.token_type {
            return false;
        }
        match self {
            Node::Terminal(token, _) => {
                token.token_type == other_token.token_type && token.token == other_token.token
            },
            Node::Branching(_, child_1, child_2, _) => {
                match other {
                    Node::Branching(_, other_child_1, other_child_2, _) => {
                        let condition_1 = child_1.is_branch_equal_to(other_child_1)
                            && child_2.is_branch_equal_to(other_child_2);
                        let condition_2 = child_1.is_branch_equal_to(other_child_2)
                            && child_2.is_branch_equal_to(other_child_1);
                        condition_1 || condition_2
                    },
                    Node::Terminal(..) => false,
                }
            },
        }
    }
}

/// Every tree is branch-equal to itself.
pub proof fn lemma_branch_equal_reflexive(a: Node)
    ensures
        branch_equal(a, a),
    decreases a,
{
    if let Node::Branching(_, c1, c2, _) = a {
        lemma_branch_equal_reflexive(*c1);
        lemma_branch_equal_reflexive(*c2);
    }
}

/// On the trees the parser builds, branch equality does not depend on the order of its
/// arguments.
pub proof fn lemma_branch_equal_symmetric(a: Node, b: Node)
    requires
        well_shaped(a),
        well_shaped(b),
    ensures
        branch_equal(a, b) == branch_equal(b, a),
    decreases a,
{
    if let Node::Branching(_, c1, c2, _) = a {
        if let Node::Branching(_, o1, o2, _) = b {
            lemma_branch_equal_symmetric(*c1, *o1);
            lemma_branch_equal_symmetric(*c2, *o2);
            lemma_branch_equal_symmetric(*c1, *o2);
            lemma_branch_equal_symmetric(*c2, *o1);
        }
    }
}


/// Whether some node of the list is branch-equal to `other`.
pub fn vec_contains_identical_node(list: &Vec<Node>, other_node: &Node) -> (r: bool)
    requires
        forall|i: int|
            0 <= i < list.len() ==> (forall|j: int|
                0 <= j < i ==> !branch_equal(#[trigger] list@[j], *other_node)) ==> comparable(
                #[trigger] list@[i],
                *other_node,
            ),
    ensures
        r == exists|i: int| 0 <= i < list.len() && branch_equal(#[trigger] list@[i], *other_node),
{
    let mut i: usize = 0;
    while i < list.len()
        invariant
            i <= list.len(),
            forall|k: int|
                0 <= k < list.len() ==> (forall|j: int|
                    0 <= j < k ==> !branch_equal(#[trigger] list@[j], *other_node)) ==> comparable(
                    #[trigger] list@[k],
                    *other_node,
                ),
            forall|j: int| 0 <= j < i ==> !branch_equal(#[trigger] list@[j], *other_node),
        decreases list.len() - i,
    {
        if list[i].is_branch_equal_to(other_node) {
            return true;
        }
        i = i + 1;
    }
    false
}

/// On the trees the parser builds, branch equality is transitive; with reflexivity and
/// symmetry, it is an equivalence.
pub proof fn lemma_branch_equal_transitive(a: Node, b: Node, c: Node)
    requires
        well_shaped(a),
        well_shaped(b),
        well_shaped(c),
        branch_equal(a, b),
        branch_equal(b, c),
    ensures
        branch_equal(a, c),
    decreases a,
{
    if let Node::Branching(_, a1, a2, _) = a {
        if let Node::Branching(_, b1, b2, _) = b {
            if let Node::Branching(_, c1, c2, _) = c {
                if branch_equal(*a1, *b1) && branch_equal(*a2, *b2) {
                    if branch_equal(*b1, *c1) && branch_equal(*b2, *c2) {
                        lemma_branch_equal_transitive(*a1, *b1, *c1);
                        lemma_branch_equal_transitive(*a2, *b2, *c2);
                    } else {
                        lemma_branch_equal_transitive(*a1, *b1, *c2);
                        lemma_branch_equal_transitive(*a2, *b2, *c1);
                    }
                } else {
                    if branch_equal(*b1, *c1) && branch_equal(*b2, *c2) {
                        lemma_branch_equal_transitive(*a1, *b2, *c2);
                        lemma_branch_equal_transitive(*a2, *b1, *c1);
                    } else {
                        lemma_branch_equal_transitive(*a1, *b2, *c1);
                        lemma_branch_equal_transitive(*a2, *b1, *c2);
                    }
                }
            }
        }
    }
}

/// A question asked of a single node.
#[derive(Debug, Clone, Copy, PartialEq, Eq, Structural)]
pub enum NodeCheck {
    /// The node holds a constant.
    IsConstant,
    /// The node holds a variable.
    IsVariable,
    /// The node is a power whose base is a variable.
    IsVariableExponent,
}

/// Whether a node is a power (`^`) whose base, the first child, holds a variable.
pub open spec fn is_variable_power(n: Node) -> bool {
    match n {
        Node::Branching(t, c1, _, _) => t.token@ == seq!['^'] && node_category(*c1)
            == TokenCategory::Variable,
        Node::Terminal(..) => false,
    }
}

/// The answer to a node check.
pub open spec fn check_holds(check: NodeCheck, n: Node) -> bool {
    match check {
        NodeCheck::IsConstant => node_category(n) == TokenCategory::Constant,
        NodeCheck::IsVariable => node_category(n) == TokenCategory::Variable,
        NodeCheck::IsVariableExponent => is_variable_power(n),
    }
}

/// Whether a node is a product (`*`) of a constant with a variable, or with a power of a
/// variable, in either order.
pub open spec fn is_variable_product(n: Node) -> bool {
    match n {
        Node::Branching(t, c1, c2, _) => {
            &&& t.token@ == seq!['*']
            &&& {
                ||| check_holds(NodeCheck::IsConstant, *c1) && check_holds(NodeCheck::IsVariable, *c2)
                ||| check_holds(NodeCheck::IsVariable, *c1) && check_holds(NodeCheck::IsConstant, *c2)
                ||| check_holds(NodeCheck::IsConstant, *c1) && check_holds(
                    NodeCheck::IsVariableExponent,
                    *c2,
                )
                ||| check_holds(NodeCheck::IsVariableExponent, *c1) && check_holds(
                    NodeCheck::IsConstant,
                    *c2,
                )
            }
        },
        Node::Terminal(..) => false,
    }
}

impl NodeCheck {
    /// Answers the check for a node.
    pub fn holds(&self, node: &Node) -> (r: bool)
        ensures
            r == check_holds(*self, *node),
    {
        match self {
            NodeCheck::IsConstant => node.get_token().token_type == TokenCategory::Constant,
            NodeCheck::IsVariable => node.get_token().token_type == TokenCategory::Variable,
            NodeCheck::IsVariableExponent => is_node_variable_exponent(node),
        }
    }
}

/// Whether `condition1` holds of `node_1` and `condition2` of `node_2`, or the other way round.
pub fn check_this_and_that(
    condition1: NodeCheck,
    condition2: NodeCheck,
    node_1: &Node,
    node_2: &Node,
) -> (r: bool)
    ensures
        r == ((check_holds(condition1, *node_1) && check_holds(condition2, *node_2)) || (
        check_holds(condition2, *node_1) && check_holds(condition1, *node_2))),
{
    (condition1.holds(node_1) && condition2.holds(node_2)) || (condition2.holds(node_1)
        && condition1.holds(node_2))
}

/// Whether the node is a power whose base is a variable.
pub fn is_node_variable_exponent(node: &Node) -> (r: bool)
    ensures
        r == is_variable_power(*node),
{
    if let Node::Branching(token, child_1, _, _) = node {
        if !text_is(&token.token, '^') {
            return false;
        }
        return child_1.get_token().token_type == TokenCategory::Variable;
    }
    false
}

/// Whether the node is of the form `n * variable` (see `is_variable_product`).
pub fn is_node_variable_coefficient(node: &Node) -> (r: bool)
    ensures
        r == is_variable_product(*node),
{
    if let Node::Branching(token, child_1, child_2, ..) = node {
        if !text_is(&token.token, '*') {
            return false;
        }
        if check_this_and_that(NodeCheck::IsConstant, NodeCheck::IsVariable, child_1, child_2) {
            return true;
        }
        if check_this_and_that(
            NodeCheck::IsConstant,
            NodeCheck::IsVariableExponent,
            child_1,
            child_2,
        ) {
            return true;
        }
    }
    false
}

/// The number that leaves the other operand of the operator unchanged, as text: `0` for
/// addition and subtraction, `1` for multiplication, division and powers.
pub open spec fn identity_text(operator: Seq<char>) -> Option<Seq<char>> {
    if operator == seq!['+'] || operator == seq!['-'] {
        Some(seq!['0'])
    } else if operator == seq!['*'] || operator == seq!['/'] || operator == seq!['^'] {
        Some(seq!['1'])
    } else {
        None
    }
}

/// Returns the constant node, with the given index, that makes the parent node an identity.
pub fn get_identity_node(parent_node: &Node, index: usize) -> (r: Node)
    requires
        parent_node is Branching,
        identity_text(node_token(*parent_node).token@) is Some,
    ensures
        r is Terminal,
        node_index(r) == index,
        node_category(r) == TokenCategory::Constant,
        node_token(r).token@ == identity_text(node_token(*parent_node).token@).unwrap(),
{
    let op = &parent_node.get_token().token;
    let text = if text_is(op, '+') || text_is(op, '-') {
        let t = String::from_str("0");
        proof {
            reveal_strlit("0");
        }
        assert(t@ =~= seq!['0']);
        t
    } else {
        let t = String::from_str("1");
        proof {
            reveal_strlit("1");
        }
        assert(t@ =~= seq!['1']);
        t
    };
    Node::Terminal(Token { token_type: TokenCategory::Constant, token: text }, index)
}


/// The variable that two terms to be combined share: that of the first term if it is a
/// variable, else that of the second, else the first variable found below the first term, else
/// below the second (see `any_child_of_type`).
pub open spec fn combination_variable(n1: Node, n2: Node) -> Option<Token> {
    if node_category(n1) == TokenCategory::Variable {
        Some(node_token(n1))
    } else if node_category(n2) == TokenCategory::Variable {
        Some(node_token(n2))
    } else if any_child_of_type(n1, TokenCategory::Variable) is Some {
        Some(node_token(any_child_of_type(n1, TokenCategory::Variable).unwrap()))
    } else if any_child_of_type(n2, TokenCategory::Variable) is Some {
        Some(node_token(any_child_of_type(n2, TokenCategory::Variable).unwrap()))
    } else {
        None
    }
}

/// Returns a copy of the variable that two terms to be combined share (see
/// `combination_variable`).
pub fn select_combination_variable(node1: &Node, node2: &Node) -> (r: Option<Token>)
    ensures
        r == combination_variable(*node1, *node2),
{
    let temp_token_1 = node1.get_token();
    let temp_token_2 = node2.get_token();
    if temp_token_1.token_type == TokenCategory::Variable {
        Some(temp_token_1.clone())
    } else if temp_token_2.token_type == TokenCategory::Variable {
        Some(temp_token_2.clone())
    } else if let Some(node) = node1.get_any_child_of_type(TokenCategory::Variable) {
        Some(node.get_token().clone())
    } else if let Some(other_node) = node2.get_any_child_of_type(TokenCategory::Variable) {
        Some(other_node.get_token().clone())
    } else {
        None
    }
}

} // verus!
