//! Parsing and simplification of small algebraic expressions into binary trees.
pub mod token;
pub mod tree;
pub mod path;
pub mod simplify;
pub mod iter;
pub mod variables;
pub mod parse;
pub mod order;
pub mod validate;
pub mod implicit;
pub mod expression;
