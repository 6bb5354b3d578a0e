use expression_tree::expression::{build_indexed_tree, tokenize_expression};
use expression_tree::iter::construct_tree_iterator;
use expression_tree::simplify::get_simplifiable_nodes;
use expression_tree::tree::Node;
use expression_tree::variables::{collect_variable_groups, find_unique_variables, products_are_listed};
use expression_tree::validate::{validate_expression, validate_parenthesis, verdict_from_matches};

fn parse(input: &str) -> Node {
    build_indexed_tree(tokenize_expression(input).unwrap()).unwrap()
}

fn render(node: &Node) -> String {
    match node {
        Node::Terminal(t, _) => t.token.clone(),
        Node::Branching(t, a, b, _) => format!("({} {} {})", t.token, render(a), render(b)),
    }
}

#[test]
fn walk_is_preorder() {
    let tree = parse("3x^2+2x");
    let mut it = construct_tree_iterator(&tree);
    let mut seen = Vec::new();
    while let Some(node) = it.next() {
        seen.push(node.index());
    }
    assert_eq!(seen, vec![1, 2, 4, 5, 10, 11, 3, 6, 7]);
}

#[test]
fn walk_restarts_after_its_end() {
    let tree = parse("x");
    let mut it = construct_tree_iterator(&tree);
    assert_eq!(it.next().unwrap().index(), 1);
    assert!(it.next().is_none());
    assert_eq!(it.next().unwrap().index(), 1);
}

#[test]
fn walk_skips_a_branch() {
    let tree = parse("3x^2+2x");
    let mut it = construct_tree_iterator(&tree);
    let mut seen = Vec::new();
    while let Some(node) = it.next() {
        seen.push(node.index());
        if node.index() == 2 {
            it.skip_next_branch = true;
        }
    }
    assert_eq!(seen, vec![1, 2, 3, 6, 7]);
}

#[test]
fn unique_variables_in_walk_order() {
    let tree = parse("3x^2+2x");
    let vars = find_unique_variables(&tree);
    let rendered: Vec<String> = vars.iter().map(render).collect();
    assert_eq!(rendered, vec!["(^ x 2)", "x"]);
    assert_eq!(vars[0].index(), 5);
    assert_eq!(vars[1].index(), 7);
}

#[test]
fn repeated_variables_are_listed_once() {
    let tree = parse("2x+3x+y");
    let vars = find_unique_variables(&tree);
    let rendered: Vec<String> = vars.iter().map(render).collect();
    assert_eq!(rendered, vec!["x", "y"]);
    assert!(find_unique_variables(&parse("1+2")).is_empty());
}

#[test]
fn variable_groups_record_products() {
    let tree = parse("3x^2+2x");
    let vars = find_unique_variables(&tree);
    let groups = collect_variable_groups(&tree, &vars);
    assert_eq!(groups, vec![vec![2], vec![3]]);
}

#[test]
fn variable_groups_gather_like_terms() {
    let tree = parse("3x^2+2x+5x+3x+2x^2");
    let vars = find_unique_variables(&tree);
    let rendered: Vec<String> = vars.iter().map(render).collect();
    assert_eq!(rendered, vec!["(^ x 2)", "x"]);
    let groups = collect_variable_groups(&tree, &vars);
    assert_eq!(groups[0].len(), 2);
    assert_eq!(groups[1].len(), 3);
}

#[test]
fn variable_groups_need_listed_products() {
    let tree = parse("2x+1");
    assert!(!products_are_listed(&tree, &Vec::new()));
    assert!(products_are_listed(&tree, &find_unique_variables(&tree)));
    let tree = parse("1+2");
    assert!(products_are_listed(&tree, &Vec::new()));
    assert_eq!(collect_variable_groups(&tree, &Vec::new()), Vec::<Vec<usize>>::new());
}

#[test]
fn simplifiable_constant_subtrees() {
    let tree = parse("(1+2)*x");
    let mut found = Vec::new();
    assert!(!get_simplifiable_nodes(&tree, &mut found));
    assert_eq!(found, vec![2]);
    let tree = parse("1+2*3");
    let mut found = vec![9];
    assert!(get_simplifiable_nodes(&tree, &mut found));
    assert_eq!(found, vec![9]);
    let tree = parse("x+(1+2)*(3+y)");
    let mut found = Vec::new();
    assert!(!get_simplifiable_nodes(&tree, &mut found));
    assert_eq!(found, vec![14, 6]);
}

#[test]
fn parentheses_balance() {
    assert!(validate_parenthesis("(1+(2))"));
    assert!(validate_parenthesis(""));
    assert!(!validate_parenthesis(")("));
    assert!(!validate_parenthesis("(()"));
}

#[test]
fn invalid_expressions_are_rejected() {
    for equation in ["5 + (  )", "3 * 4 ^@", "6 - 8 * 3 ++ 2", "7 * (+3)", "124 x", "3 + (4 * "] {
        assert_eq!(validate_expression(equation), Ok(false), "{}", equation);
    }
}

#[test]
fn valid_expressions_are_accepted() {
    assert_eq!(validate_expression("3x^2+2x+5x+3x+2x^2"), Ok(true));
    assert_eq!(validate_expression("1 + 2"), Ok(true));
    assert_eq!(validate_expression("(x-1)*(x+1)"), Ok(true));
}

#[test]
fn comparisons_at_the_ends_are_rejected() {
    assert_eq!(validate_expression("x+1="), Ok(false));
    assert_eq!(validate_expression("=x+1"), Ok(false));
    assert_eq!(validate_expression("x=1"), Ok(true));
}

#[test]
fn verdict_from_rule_matches() {
    assert!(verdict_from_matches(&vec![false, false], "(x)"));
    assert!(!verdict_from_matches(&vec![false, true], "(x)"));
    assert!(!verdict_from_matches(&vec![false], "(x"));
}
