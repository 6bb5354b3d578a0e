# expression_tree

Reads a small algebraic expression such as `3x^2+2x+5x`, checks it, splits it into tokens,
writes out its implicit operations (`2x` is `2*x`, a leading `-x` is `0-x`), builds its tree by
operator precedence, numbers the nodes (the root is 1, the children of `i` are `2i` and
`2i+1`), and finds its variables and the terms that share them.

The library in `src/` is verified with Verus:

- `token`: categories of characters, tokens, and reading an expression into tokens.
- `implicit`: the pass that writes out implicit products and negations.
- `validate`: the checks an expression must pass (patterns of the `regex` crate, balanced
  parentheses).
- `parse`: building a tree from tokens with an operator stack; `order` proves that the tree
  keeps the order of the tokens and groups them by precedence.
- `tree`, `path`: nodes, the questions asked of them, and finding, replacing and numbering nodes
  by index.
- `iter`: a pre-order walk that can skip a subtree.
- `variables`, `simplify`: finding the distinct variables, grouping their occurrences, and
  finding the subtrees made of constants.
- `expression`: from text to a numbered tree.

`app/` holds the program around it: input, printing, and evaluation in floating point.
