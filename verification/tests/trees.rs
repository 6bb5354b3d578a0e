use std::cmp::Ordering;
use std::collections::VecDeque;

use expression_tree::expression::{build_indexed_tree, tokenize_expression};
use expression_tree::parse::{
    build_expression_tree, compare_operator_precedence, process_operator, push_new_node_to_stack,
};
use expression_tree::path::{
    find_node_by_index, fits_indexes, get_node_by_index, get_parent_of_node,
    get_position_of_first_one, index_tree, replace_node_at_index,
};
use expression_tree::token::{tokenize, Token, TokenCategory};
use expression_tree::tree::{
    check_this_and_that, get_identity_node, is_node_variable_coefficient,
    is_node_variable_exponent, select_combination_variable, vec_contains_identical_node, Node,
    NodeCheck,
};

fn tok(category: TokenCategory, text: &str) -> Token {
    Token { token_type: category, token: text.to_string() }
}

fn leaf(text: &str) -> Node {
    let category = if text.chars().all(|c| c.is_ascii_digit() || c == '.') {
        TokenCategory::Constant
    } else {
        TokenCategory::Variable
    };
    Node::Terminal(tok(category, text), 0)
}

fn op(text: &str, left: Node, right: Node) -> Node {
    Node::Branching(tok(TokenCategory::Operator, text), Box::new(left), Box::new(right), 0)
}

fn render(node: &Node) -> String {
    match node {
        Node::Terminal(t, _) => t.token.clone(),
        Node::Branching(t, a, b, _) => format!("({} {} {})", t.token, render(a), render(b)),
    }
}

fn render_indexed(node: &Node) -> String {
    match node {
        Node::Terminal(t, i) => format!("{}#{}", t.token, i),
        Node::Branching(t, a, b, i) => {
            format!("({}#{} {} {})", t.token, i, render_indexed(a), render_indexed(b))
        }
    }
}

fn parse(input: &str) -> Node {
    build_indexed_tree(tokenize_expression(input).unwrap()).unwrap()
}

#[test]
fn products_bind_tighter_than_sums() {
    let tree = build_expression_tree(tokenize("1+2*3")).unwrap();
    assert_eq!(render(&tree), "(+ 1 (* 2 3))");
    let tree = build_expression_tree(tokenize("2*3+4")).unwrap();
    assert_eq!(render(&tree), "(+ (* 2 3) 4)");
}

#[test]
fn operators_of_equal_precedence_group_to_the_left() {
    assert_eq!(render(&build_expression_tree(tokenize("1-2-3")).unwrap()), "(- (- 1 2) 3)");
    assert_eq!(render(&build_expression_tree(tokenize("2^3^2")).unwrap()), "(^ (^ 2 3) 2)");
}

#[test]
fn parentheses_group_first() {
    let tree = build_expression_tree(tokenize("(1+2)*3")).unwrap();
    assert_eq!(render(&tree), "(* (+ 1 2) 3)");
}

#[test]
fn equations_bind_loosest() {
    let tree = build_expression_tree(tokenize("x+1=2*y")).unwrap();
    assert_eq!(render(&tree), "(= (+ x 1) (* 2 y))");
}

#[test]
fn missing_operand_builds_nothing() {
    assert!(build_expression_tree(tokenize("1+")).is_none());
    assert!(build_expression_tree(tokenize("*")).is_none());
    assert!(build_expression_tree(Vec::new()).is_none());
}

#[test]
fn unmatched_opening_parenthesis_becomes_a_node() {
    let tree = build_expression_tree(tokenize("1(2+3")).unwrap();
    assert_eq!(render(&tree), "(( 1 (+ 2 3))");
}

#[test]
fn indexed_tree_numbers_nodes() {
    let tree = parse("3x^2+2x");
    assert_eq!(
        render_indexed(&tree),
        "(+#1 (*#2 3#4 (^#5 x#10 2#11)) (*#3 2#6 x#7))"
    );
}

#[test]
fn index_tree_from_a_parent() {
    let tree = index_tree(op("+", leaf("1"), leaf("2")), 3, true, false);
    assert_eq!(render_indexed(&tree), "(+#6 1#12 2#13)");
    assert!(fits_indexes(&tree, 1));
    assert!(!fits_indexes(&tree, usize::MAX));
}

#[test]
fn nodes_are_found_by_index() {
    let tree = parse("3x^2+2x");
    assert_eq!(render(get_node_by_index(&tree, 1)), "(+ (* 3 (^ x 2)) (* 2 x))");
    assert_eq!(render(get_node_by_index(&tree, 5)), "(^ x 2)");
    assert_eq!(render(get_node_by_index(&tree, 10)), "x");
    assert_eq!(get_node_by_index(&tree, 7).index(), 7);
    assert_eq!(render(get_node_by_index(&tree, 0)), render(&tree));
    assert_eq!(render(get_parent_of_node(&tree, 11)), "(^ x 2)");
    assert!(find_node_by_index(&tree, 12).is_none());
    assert_eq!(render(find_node_by_index(&tree, 6).unwrap()), "2");
}

#[test]
fn position_of_first_one() {
    assert_eq!(get_position_of_first_one(1), 0);
    assert_eq!(get_position_of_first_one(2), 1);
    assert_eq!(get_position_of_first_one(5), 2);
    assert_eq!(get_position_of_first_one(10), 3);
    assert_eq!(get_position_of_first_one(usize::MAX), (usize::BITS - 1) as usize);
}

#[test]
fn replaced_node_is_read_back() {
    let tree = parse("3x^2+2x");
    let replaced = replace_node_at_index(tree, leaf("9"), 5, get_position_of_first_one(5));
    assert_eq!(render(&replaced), "(+ (* 3 9) (* 2 x))");
    assert_eq!(render(get_node_by_index(&replaced, 5)), "9");
    let whole = replace_node_at_index(replaced, leaf("1"), 1, 0);
    assert_eq!(render(&whole), "1");
}

#[test]
fn branch_equality_ignores_operand_order_and_operator() {
    let a = op("+", leaf("x"), leaf("2"));
    let b = op("*", leaf("2"), leaf("x"));
    let c = op("+", leaf("y"), leaf("2"));
    assert!(a.is_branch_equal_to(&b));
    assert!(b.is_branch_equal_to(&a));
    assert!(!a.is_branch_equal_to(&c));
    assert!(!leaf("x").is_branch_equal_to(&a));
    let list = vec![leaf("y"), b];
    assert!(vec_contains_identical_node(&list, &a));
    assert!(!vec_contains_identical_node(&list, &leaf("z")));
}

#[test]
fn node_accessors() {
    let tree = parse("2x");
    assert_eq!(tree.get_token().token, "*");
    assert_eq!(tree.index(), 1);
    assert!(!tree.is_terminal());
    assert!(get_node_by_index(&tree, 2).is_terminal());
    let child = tree.get_immediate_child_of_type(TokenCategory::Variable).unwrap();
    assert_eq!(child.index(), 3);
    assert!(tree.get_immediate_child_of_type(TokenCategory::Operator).is_none());
}

#[test]
fn search_for_a_category() {
    let tree = parse("2*(3+x)");
    let found = tree.get_any_child_of_type(TokenCategory::Variable).unwrap();
    assert_eq!(found.index(), 7);
    let found = tree.get_any_child_of_type(TokenCategory::Operator).unwrap();
    assert_eq!(render(found), "(+ 3 x)");
    assert!(parse("1+2").get_any_child_of_type(TokenCategory::Variable).is_none());
    let x = leaf("x");
    assert_eq!(render(x.get_any_child_of_type(TokenCategory::Variable).unwrap()), "x");
}

#[test]
fn variable_products_and_powers() {
    assert!(is_node_variable_coefficient(&parse("2x")));
    assert!(is_node_variable_coefficient(&parse("x*2")));
    assert!(is_node_variable_coefficient(&parse("3x^2")));
    assert!(!is_node_variable_coefficient(&parse("2+x")));
    assert!(!is_node_variable_coefficient(&parse("xy")));
    assert!(is_node_variable_exponent(&parse("x^2")));
    assert!(!is_node_variable_exponent(&parse("2^x")));
    assert!(!is_node_variable_exponent(&leaf("x")));
}

#[test]
fn checks_in_either_order() {
    let c = leaf("1");
    let v = leaf("x");
    assert!(check_this_and_that(NodeCheck::IsConstant, NodeCheck::IsVariable, &c, &v));
    assert!(check_this_and_that(NodeCheck::IsConstant, NodeCheck::IsVariable, &v, &c));
    assert!(!check_this_and_that(NodeCheck::IsConstant, NodeCheck::IsVariable, &c, &c));
    let p = parse("x^2");
    assert!(NodeCheck::IsVariableExponent.holds(&p));
    assert!(!NodeCheck::IsConstant.holds(&p));
}

#[test]
fn identity_nodes() {
    let plus = op("+", leaf("1"), leaf("2"));
    let node = get_identity_node(&plus, 6);
    assert_eq!(render_indexed(&node), "0#6");
    let power = op("^", leaf("1"), leaf("2"));
    let node = get_identity_node(&power, 3);
    assert_eq!(render_indexed(&node), "1#3");
    assert_eq!(node.get_token().token_type, TokenCategory::Constant);
}

#[test]
fn combination_variable_is_found() {
    let a = parse("3x");
    let b = parse("2x");
    let v = select_combination_variable(&a, &b).unwrap();
    assert_eq!(v.token, "x");
    assert_eq!(v.token_type, TokenCategory::Variable);
    let v = select_combination_variable(&leaf("1"), &leaf("y")).unwrap();
    assert_eq!(v.token, "y");
    assert!(select_combination_variable(&leaf("1"), &leaf("2")).is_none());
}

#[test]
fn precedence_comparison() {
    assert_eq!(compare_operator_precedence(&'+', &'*'), Ordering::Less);
    assert_eq!(compare_operator_precedence(&'^', &'/'), Ordering::Greater);
    assert_eq!(compare_operator_precedence(&'-', &'+'), Ordering::Equal);
    assert_eq!(compare_operator_precedence(&'=', &'-'), Ordering::Less);
}

#[test]
fn operator_arrival() {
    let mut operands: VecDeque<Node> = VecDeque::new();
    operands.push_back(leaf("2"));
    operands.push_back(leaf("3"));
    let mut stack = VecDeque::new();
    stack.push_back(tok(TokenCategory::Operator, "*"));
    let stack = process_operator(stack, tok(TokenCategory::Operator, "+"), &mut operands).unwrap();
    assert_eq!(stack.len(), 1);
    assert_eq!(stack[0].token, "+");
    assert_eq!(operands.len(), 1);
    assert_eq!(render(&operands[0]), "(* 2 3)");
    let mut none: VecDeque<Node> = VecDeque::new();
    let mut stack = VecDeque::new();
    stack.push_back(tok(TokenCategory::Operator, "^"));
    assert!(process_operator(stack, tok(TokenCategory::Operator, "-"), &mut none).is_none());
}

#[test]
fn new_node_takes_the_second_child_first() {
    let mut stack: VecDeque<Node> = VecDeque::new();
    push_new_node_to_stack(&mut stack, tok(TokenCategory::Operator, "-"), leaf("1"), leaf("2"), 4);
    assert_eq!(render_indexed(&stack[0]), "(-#4 2#0 1#0)");
}

fn inorder_text(node: &Node) -> String {
    match node {
        Node::Terminal(t, _) => t.token.clone(),
        Node::Branching(t, a, b, _) => format!("{}{}{}", inorder_text(a), t.token, inorder_text(b)),
    }
}

#[test]
fn reading_the_tree_gives_the_tokens_without_parentheses() {
    for (input, expected) in [
        ("1+2*3", "1+2*3"),
        ("(1+2)*3", "1+2*3"),
        ("2^(3-x)/4", "2^3-x/4"),
        ("((a))", "a"),
    ] {
        let tree = build_expression_tree(tokenize(input)).unwrap();
        assert_eq!(inorder_text(&tree), expected, "{}", input);
    }
}

#[test]
fn replacing_keeps_nodes_off_the_path() {
    let tree = parse("3x^2+2x");
    let replaced = replace_node_at_index(tree, leaf("9"), 5, get_position_of_first_one(5));
    assert_eq!(render(get_node_by_index(&replaced, 3)), "(* 2 x)");
    assert_eq!(render(get_node_by_index(&replaced, 4)), "3");
}

#[test]
fn branch_equality_is_an_equivalence() {
    let a = op("+", leaf("x"), op("*", leaf("2"), leaf("y")));
    let b = op("-", op("/", leaf("y"), leaf("2")), leaf("x"));
    let c = op("^", leaf("x"), op("+", leaf("2"), leaf("y")));
    assert!(a.is_branch_equal_to(&a));
    assert!(a.is_branch_equal_to(&b) && b.is_branch_equal_to(&a));
    assert!(b.is_branch_equal_to(&c));
    assert!(a.is_branch_equal_to(&c));
}

#[test]
fn numbering_does_not_change_branch_equality() {
    let a = op("+", leaf("x"), op("*", leaf("2"), leaf("y")));
    let numbered = index_tree(a.clone(), 0, false, true);
    assert!(a.is_branch_equal_to(&numbered));
    assert!(numbered.is_branch_equal_to(&a));
    let c = op("-", leaf("x"), leaf("y"));
    assert!(!c.is_branch_equal_to(&index_tree(a.clone(), 3, true, false)));
}

#[test]
fn children_sit_at_twice_the_index() {
    let tree = parse("3x^2+2x");
    for i in [1usize, 2, 3, 5] {
        if let Node::Branching(_, c1, c2, _) = get_node_by_index(&tree, i) {
            assert_eq!(render(get_node_by_index(&tree, 2 * i)), render(c1));
            assert_eq!(render(get_node_by_index(&tree, 2 * i + 1)), render(c2));
        } else {
            panic!("node {} should branch", i);
        }
    }
}

#[test]
fn arrival_keeps_precedences_rising() {
    let mut operands: VecDeque<Node> = VecDeque::new();
    for text in ["1", "2", "3", "4"] {
        operands.push_back(leaf(text));
    }
    let mut stack = VecDeque::new();
    stack.push_back(tok(TokenCategory::Operator, "="));
    stack.push_back(tok(TokenCategory::Operator, "+"));
    stack.push_back(tok(TokenCategory::Operator, "*"));
    let stack = process_operator(stack, tok(TokenCategory::Operator, "-"), &mut operands).unwrap();
    let texts: Vec<&str> = stack.iter().map(|t| t.token.as_str()).collect();
    assert_eq!(texts, vec!["=", "-"]);
    assert_eq!(operands.len(), 4 - (3 + 1 - 2));
    assert_eq!(render(&operands[1]), "(+ 2 (* 3 4))");
}
