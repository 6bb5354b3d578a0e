//! From the text of an expression to its numbered tree.
use vstd::prelude::*;
use crate::token::{
    Token, TokenCategory, tokenize, tokens_of, token_views, lemma_tokens_cover_input,
    well_formed_token, char_category, same_kind,
};
use crate::implicit::{insert_implicit_operations, implicit_from, is_minus};
use crate::parse::{build_expression_tree, parse_tokens, lemma_parse_well_shaped};
use crate::path::{
    fits_indexes, index_tree, indexable, indexed, lemma_indexed_consistent,
    lemma_indexed_well_shaped,
};
use crate::tree::Node;
use crate::variables::searchable;

verus! {

/// Reads the expression into tokens and writes out its implicit operations (see
/// `tokens_of` and `implicit_step`). None where a minus sign after an operator ends the
/// expression.
pub fn tokenize_expression(input: &str) -> (r: Option<Vec<Token>>)
    ensures
        r is Some <==> implicit_from(tokens_of(input@), 0) is Some,
        r matches Some(v) ==> token_views(v@) == implicit_from(tokens_of(input@), 0).unwrap(),
{
    let tokens = tokenize(input);
    proof {
        lemma_tokens_cover_input(input@);
        let tv = token_views(tokens@);
        assert forall|j: int| 0 <= j < tv.len() && is_minus(#[trigger] tv[j]) implies tv[j].0
            == TokenCategory::Operator by {
            assert(well_formed_token(tokens_of(input@)[j]));
            assert(char_category(tv[j].1[0]) matches Some(k) && same_kind(k, tv[j].0));
        }
    }
    insert_implicit_operations(tokens)
}

/// Builds the tree of the tokens by operator precedence (see `parse_tokens`) and numbers it
/// from 1 at the root. None where the tokens do not build a tree, or where the tree is too deep
/// for its indexes to fit in a `usize`.
pub fn build_indexed_tree(tokens: Vec<Token>) -> (r: Option<Node>)
    ensures
        r is Some <==> (parse_tokens(tokens@) matches Some(m) && indexable(m, 1)),
        r matches Some(n) ==> n == indexed(parse_tokens(tokens@).unwrap(), 1) && searchable(n),
{
    let ghost toks = tokens@;
    let root = match build_expression_tree(tokens) {
        Some(n) => n,
        None => {
            return None;
        },
    };
    proof {
        lemma_parse_well_shaped(toks);
    }
    if !fits_indexes(&root, 1) {
        return None;
    }
    let ghost m = root;
    let indexed_root = index_tree(root, 0, false, true);
    proof {
        lemma_indexed_consistent(m, 1);
        lemma_indexed_well_shaped(m, 1);
    }
    Some(indexed_root)
}

} // verus!
