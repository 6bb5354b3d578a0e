use expression_tree::token::{
    build_token_of_type, get_first_char, get_token_category, get_token_category_of_character,
    is_whitespace_char, remove_whitespace, tokenize, TokenCategory,
};
use expression_tree::implicit::insert_implicit_operations;
use expression_tree::expression::tokenize_expression;

fn texts(tokens: &[expression_tree::token::Token]) -> Vec<String> {
    tokens.iter().map(|t| t.token.clone()).collect()
}

#[test]
fn character_categories() {
    assert_eq!(get_token_category_of_character(&'7'), Some(TokenCategory::Constant));
    assert_eq!(get_token_category_of_character(&'.'), Some(TokenCategory::Constant));
    assert_eq!(get_token_category_of_character(&'x'), Some(TokenCategory::Variable));
    assert_eq!(get_token_category_of_character(&'Q'), Some(TokenCategory::Variable));
    assert_eq!(get_token_category_of_character(&'^'), Some(TokenCategory::Operator));
    assert_eq!(get_token_category_of_character(&'='), Some(TokenCategory::Operator));
    assert_eq!(get_token_category_of_character(&'('), Some(TokenCategory::Parenthesis(true)));
    assert_eq!(get_token_category_of_character(&')'), Some(TokenCategory::Parenthesis(false)));
    assert_eq!(get_token_category_of_character(&' '), None);
    assert_eq!(get_token_category_of_character(&'@'), None);
}

#[test]
fn first_category_skips_uncategorized_characters() {
    assert_eq!(get_token_category("  @+x"), Some(TokenCategory::Operator));
    assert_eq!(get_token_category("x"), Some(TokenCategory::Variable));
    assert_eq!(get_token_category(" @ "), None);
    assert_eq!(get_token_category(""), None);
}

#[test]
fn first_char_skips_carriage_returns() {
    assert_eq!(get_first_char(&"\r\rab".to_string()), Some('a'));
    assert_eq!(get_first_char(&"\r".to_string()), None);
    assert_eq!(get_first_char(&"".to_string()), None);
}

#[test]
fn constant_token_runs_over_spaces() {
    let (token, rest) = build_token_of_type(TokenCategory::Constant, "12 3+4");
    assert_eq!(token.token_type, TokenCategory::Constant);
    assert_eq!(token.token, "123");
    assert_eq!(rest, "+4");
}

#[test]
fn variable_and_operator_tokens_are_one_character() {
    let (token, rest) = build_token_of_type(TokenCategory::Variable, "xy");
    assert_eq!(token.token, "x");
    assert_eq!(rest, "y");
    let (token, rest) = build_token_of_type(TokenCategory::Operator, "+-");
    assert_eq!(token.token, "+");
    assert_eq!(rest, "-");
}

#[test]
fn parentheses_of_both_kinds_join_one_token() {
    let (token, rest) = build_token_of_type(TokenCategory::Parenthesis(true), "()1");
    assert_eq!(token.token, "()");
    assert_eq!(token.token_type, TokenCategory::Parenthesis(true));
    assert_eq!(rest, "1");
}

#[test]
fn token_of_another_kind_is_empty() {
    let (token, rest) = build_token_of_type(TokenCategory::Constant, "x1");
    assert_eq!(token.token, "");
    assert_eq!(rest, "x1");
}

#[test]
fn tokenize_splits_and_drops_uncategorized() {
    let tokens = tokenize("3x^2 + 10.5");
    assert_eq!(texts(&tokens), vec!["3", "x", "^", "2", "+", "10.5"]);
    assert_eq!(tokens[1].token_type, TokenCategory::Variable);
    assert_eq!(tokens[5].token_type, TokenCategory::Constant);
    assert!(tokenize(" @ ").is_empty());
}

#[test]
fn tokenize_joined_texts_are_the_categorized_characters() {
    let input = "a1 + (b2)*c";
    let joined: String = tokenize(input).iter().map(|t| t.token.clone()).collect();
    let categorized: String = input.chars().filter(|c| get_token_category_of_character(c).is_some()).collect();
    assert_eq!(joined, categorized);
}

#[test]
fn whitespace_is_removed() {
    assert_eq!(remove_whitespace(" 3 x\t+\n2 "), "3x+2");
    assert_eq!(remove_whitespace(""), "");
}

#[test]
fn implicit_product_of_juxtaposed_terms() {
    let tokens = tokenize_expression("2x").unwrap();
    assert_eq!(texts(&tokens), vec!["2", "*", "x"]);
    let tokens = tokenize_expression("xy").unwrap();
    assert_eq!(texts(&tokens), vec!["x", "*", "y"]);
}

#[test]
fn implicit_product_before_parenthesis() {
    let tokens = tokenize_expression("3(x+1)").unwrap();
    assert_eq!(texts(&tokens), vec!["3", "*", "(", "x", "+", "1", ")"]);
    let tokens = tokenize_expression("2x(y)").unwrap();
    assert_eq!(texts(&tokens), vec!["2", "*", "x", "*", "(", "y", ")"]);
}

#[test]
fn leading_minus_subtracts_from_zero() {
    let tokens = tokenize_expression("-x").unwrap();
    assert_eq!(texts(&tokens), vec!["0", "-", "x"]);
    assert_eq!(tokens[0].token_type, TokenCategory::Constant);
}

#[test]
fn minus_after_operator_is_wrapped() {
    let tokens = tokenize_expression("3*-2").unwrap();
    assert_eq!(texts(&tokens), vec!["3", "*", "(", "0", "-", "2", ")"]);
    let tokens = tokenize_expression("3*-2+1").unwrap();
    assert_eq!(texts(&tokens), vec!["3", "*", "(", "0", "-", "2", ")", "+", "1"]);
}

#[test]
fn minus_after_operator_at_the_end_fails() {
    assert!(tokenize_expression("3*-").is_none());
    assert!(insert_implicit_operations(tokenize("(-")).is_none());
}

#[test]
fn plain_tokens_are_unchanged() {
    let tokens = insert_implicit_operations(tokenize("1+2*3")).unwrap();
    assert_eq!(texts(&tokens), vec!["1", "+", "2", "*", "3"]);
    assert!(insert_implicit_operations(Vec::new()).unwrap().is_empty());
}

#[test]
fn whitespace_is_that_of_the_standard_library() {
    for v in 0u32..=0x10FFFF {
        if let Some(c) = char::from_u32(v) {
            assert_eq!(is_whitespace_char(c), c.is_whitespace(), "{:#x}", v);
        }
    }
}
