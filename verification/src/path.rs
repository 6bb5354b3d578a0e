//! Finding, replacing and numbering the nodes of a tree by their indexes.
use vstd::prelude::*;
use crate::tree::{Node, branch_equal, node_index, well_shaped};

verus! {

/// The node with index `i` below `root`, reached from `root` (index 1) by going to the first
/// child for each 0 and to the second for each 1 in the binary digits of `i` after the
/// leading one. Indexes 0 and 1 name the root; a path that runs into a terminal names none.
pub open spec fn node_at(root: Node, i: nat) -> Option<Node>
    decreases i,
{
    if i <= 1 {
        Some(root)
    } else {
        match node_at(root, i / 2) {
            Some(Node::Branching(_, c1, c2, _)) => Some(
                if i % 2 == 0 {
                    *c1
                } else {
                    *c2
                },
            ),
            _ => None,
        }
    }
}

/// The position of the leading one in the binary digits of `number`: the `r` with
/// `number >> r == 1`.
pub fn get_position_of_first_one(number: usize) -> (r: usize)
    requires
        number > 0,
    ensures
        r < usize::BITS,
        number >> r == 1,
{
    let mut i: usize = usize::BITS as usize;
    while i > 0
        invariant
            i <= usize::BITS,
            i == usize::BITS || number >> i == 0,
            number > 0,
        decreases i,
    {
        i = i - 1;
        if number & (1usize << i) > 0 {
            proof {
                lemma_leading_bit(number, i);
            }
            return i;
        }
        proof {
            lemma_clear_bit(number, i);
        }
    }
    assert(number >> 0usize == number) by (bit_vector);
    0
}

proof fn lemma_leading_bit(x: usize, i: usize)
    requires
        i < usize::BITS,
        i + 1 == usize::BITS || x >> (i + 1) as usize == 0,
        x & (1usize << i) > 0,
    ensures
        x >> i == 1,
{
    assert(i < usize::BITS && (i + 1 == usize::BITS || x >> (i + 1) as usize == 0) && x & (1usize
        << i) > 0 ==> x >> i == 1) by (bit_vector);
}

proof fn lemma_clear_bit(x: usize, i: usize)
    requires
        i < usize::BITS,
        i + 1 == usize::BITS || x >> (i + 1) as usize == 0,
        !(x & (1usize << i) > 0),
    ensures
        x >> i == 0,
{
    assert(i < usize::BITS && (i + 1 == usize::BITS || x >> (i + 1) as usize == 0) && !(x & (1usize
        << i) > 0) ==> x >> i == 0) by (bit_vector);
}


proof fn lemma_shift_halves(x: usize, k: usize)
    requires
        k + 1 < usize::BITS,
    ensures
        (x >> (k + 1) as usize) as int == (x >> k) as int / 2,
        (x >> k) as int == 2 * (x >> (k + 1) as usize) as int + ((x >> k) & 1) as int,
        (x >> k) as int % 2 == ((x >> k) & 1) as int,
        ((x >> k) & 1) <= 1,
{
    assert((x >> (k + 1) as usize) == (x >> k) / 2) by (bit_vector)
        requires
            k + 1 < usize::BITS,
    ;
    assert((x >> k) & 1 == (x >> k) % 2) by (bit_vector);
}

pub proof fn lemma_node_at_parent(root: Node, i: nat)
    requires
        node_at(root, i) is Some,
    ensures
        node_at(root, i / 2) is Some,
        i > 1 ==> node_at(root, i / 2).unwrap() is Branching,
{
}

/// Index 1 names the root, and the children of the branching node at index `i` have the
/// indexes `2 * i` (the first) and `2 * i + 1` (the second).
pub proof fn lemma_node_at_children(root: Node, i: nat)
    requires
        i >= 1,
    ensures
        node_at(root, 1) == Some(root),
        node_at(root, i) matches Some(Node::Branching(_, c1, c2, _)) ==> node_at(root, 2 * i)
            == Some(*c1) && node_at(root, 2 * i + 1) == Some(*c2),
{
    assert((2 * i) / 2 == i && (2 * i) % 2 == 0);
    assert((2 * i + 1) / 2 == i && (2 * i + 1) % 2 == 1);
}

/// The node at an index exists only if the node at each of the index's prefixes does.
proof fn lemma_node_at_prefix(root: Node, index: usize, k: usize)
    requires
        node_at(root, index as nat) is Some,
        k < usize::BITS,
    ensures
        node_at(root, (index >> k) as nat) is Some,
    decreases k,
{
    if k == 0 {
        assert(index >> 0usize == index) by (bit_vector);
    } else {
        lemma_node_at_prefix(root, index, (k - 1) as usize);
        lemma_shift_halves(index, (k - 1) as usize);
        lemma_node_at_parent(root, (index >> (k - 1) as usize) as nat);
    }
}

/// Returns the node with the given index (see `node_at`).
pub fn get_node_by_index(root_node: &Node, index: usize) -> (r: &Node)
    requires
        node_at(*root_node, index as nat) is Some,
    ensures
        *r == node_at(*root_node, index as nat).unwrap(),
{
    let mut first_one_found: bool = false;
    let mut current_node: &Node = root_node;
    let mut n: usize = usize::BITS as usize;
    while n > 0
        invariant
            n <= usize::BITS,
            node_at(*root_node, index as nat) is Some,
            !first_one_found ==> (n == usize::BITS || index >> n == 0),
            !first_one_found ==> current_node == root_node,
            first_one_found ==> n < usize::BITS && index >> n >= 1 && node_at(
                *root_node,
                (index >> n) as nat,
            ) == Some(*current_node),
        decreases n,
    {
        n = n - 1;
        let bit = (index >> n) & 1;
        if !first_one_found {
            first_one_found = bit == 1;
            if first_one_found {
                proof {
                    assert(n < usize::BITS && (n + 1 == usize::BITS || index >> (n + 1) as usize == 0)
                        && (index >> n) & 1 == 1 ==> index >> n == 1) by (bit_vector);
                }
            } else {
                proof {
                    assert(n < usize::BITS && (n + 1 == usize::BITS || index >> (n + 1) as usize == 0)
                        && (index >> n) & 1 != 1 ==> index >> n == 0) by (bit_vector);
                }
            }
            continue;
        }
        proof {
            lemma_shift_halves(index, n);
            lemma_node_at_prefix(*root_node, index, n);
            lemma_node_at_parent(*root_node, (index >> n) as nat);
        }
        match current_node {
            Node::Branching(_, child_1, child_2, ..) => {
                current_node = if bit == 1 {
                    &**child_2
                } else {
                    &**child_1
                };
            },
            Node::Terminal(..) => {
                proof {
                    assert(false);
                }
            },
        }
    }
    proof {
        assert(index >> 0usize == index) by (bit_vector);
    }
    current_node
}

/// Returns the parent of the node with the given index.
pub fn get_parent_of_node(root_node: &Node, child_index: usize) -> (r: &Node)
    requires
        node_at(*root_node, (child_index / 2) as nat) is Some,
    ensures
        *r == node_at(*root_node, (child_index / 2) as nat).unwrap(),
{
    get_node_by_index(root_node, child_index / 2)
}


/// Whether the binary digit of `index` at position `p` is a one.
pub open spec fn bit_set(index: usize, p: nat) -> bool {
    (index >> (p as usize)) & 1 == 1
}

/// The node reached from `m` by following the `k` lowest binary digits of `index`, from the
/// highest of them down: 0 to the first child, 1 to the second.
pub open spec fn node_below(m: Node, index: usize, k: nat) -> Option<Node>
    decreases k,
{
    if k == 0 {
        Some(m)
    } else {
        match m {
            Node::Branching(_, c1, c2, _) => if bit_set(index, (k - 1) as nat) {
                node_below(*c2, index, (k - 1) as nat)
            } else {
                node_below(*c1, index, (k - 1) as nat)
            },
            Node::Terminal(..) => None,
        }
    }
}

/// The tree `root` with the node reached by following the `pos` lowest binary digits of
/// `index` (as in `node_below`) replaced by `new_node`; none if that path runs into a terminal.
pub open spec fn replaced_at(root: Node, new_node: Node, index: usize, pos: nat) -> Option<Node>
    decreases pos,
{
    if pos == 0 {
        Some(new_node)
    } else {
        match root {
            Node::Branching(t, c1, c2, ci) => {
                let p = (pos - 1) as nat;
                if bit_set(index, p) {
                    match replaced_at(*c2, new_node, index, p) {
                        Some(n2) => Some(Node::Branching(t, c1, Box::new(n2), ci)),
                        None => None,
                    }
                } else {
                    match replaced_at(*c1, new_node, index, p) {
                        Some(n1) => Some(Node::Branching(t, Box::new(n1), c2, ci)),
                        None => None,
                    }
                }
            },
            Node::Terminal(..) => None,
        }
    }
}

/// Returns `root_node` with the node that the `path_position` lowest binary digits of `index`
/// lead to replaced by `new_node` (see `replaced_at`).
pub fn replace_node_at_index(
    root_node: Node,
    new_node: Node,
    index: usize,
    path_position: usize,
) -> (r: Node)
    requires
        path_position <= usize::BITS,
        replaced_at(root_node, new_node, index, path_position as nat) is Some,
    ensures
        r == replaced_at(root_node, new_node, index, path_position as nat).unwrap(),
    decreases path_position,
{
    if path_position == 0 {
        return new_node;
    }
    let path_position = path_position - 1;
    match root_node {
        Node::Branching(token, child_1, child_2, current_index) => {
            let bit = index & (1usize << path_position) > 0;
            proof {
                assert(path_position < usize::BITS ==> ((index & (1usize << path_position) > 0)
                    == ((index >> path_position) & 1 == 1))) by (bit_vector);
            }
            if bit == false {
                let changed = replace_node_at_index(*child_1, new_node, index, path_position);
                Node::Branching(token, Box::new(changed), child_2, current_index)
            } else {
                let changed = replace_node_at_index(*child_2, new_node, index, path_position);
                Node::Branching(token, child_1, Box::new(changed), current_index)
            }
        },
        Node::Terminal(..) => {
            proof {
                assert(false);
            }
            new_node
        },
    }
}

/// The bottom-up and the top-down ways of reaching a node by its index agree: the node at
/// `index` is the one reached from the node at `index >> k` by the `k` lowest digits.
proof fn lemma_node_at_below(root: Node, index: usize, k: nat)
    requires
        k < usize::BITS,
        index >> (k as usize) >= 1,
    ensures
        node_at(root, (index >> (k as usize)) as nat) matches Some(m) ==> node_at(root, index as nat)
            == node_below(m, index, k),
        node_at(root, (index >> (k as usize)) as nat) is None ==> node_at(root, index as nat) is None,
    decreases k,
{
    if k == 0 {
        assert(index >> 0usize == index) by (bit_vector);
    } else {
        let km = (k - 1) as usize;
        lemma_shift_halves(index, km);
        assert(index >> (k as usize) == index >> (km + 1) as usize);
        lemma_node_at_below(root, index, (k - 1) as nat);
    }
}

proof fn lemma_replaced_below(m: Node, new_node: Node, index: usize, k: nat)
    ensures
        replaced_at(m, new_node, index, k) is Some <==> node_below(m, index, k) is Some,
        replaced_at(m, new_node, index, k) matches Some(r) ==> node_below(r, index, k) == Some(
            new_node,
        ),
    decreases k,
{
    if k > 0 {
        if let Node::Branching(_, c1, c2, _) = m {
            lemma_replaced_below(*c1, new_node, index, (k - 1) as nat);
            lemma_replaced_below(*c2, new_node, index, (k - 1) as nat);
        }
    }
}

/// Writing a node at an index and then reading at that index gives back the node written:
/// where the node at `index` exists and `pos` is the position of the leading one of `index`,
/// the replacement succeeds, and the node at `index` of its result is `new_node`.
pub proof fn lemma_replace_then_read(root: Node, new_node: Node, index: usize, pos: usize)
    requires
        pos < usize::BITS,
        index >> pos == 1,
        node_at(root, index as nat) is Some,
    ensures
        replaced_at(root, new_node, index, pos as nat) is Some,
        node_at(replaced_at(root, new_node, index, pos as nat).unwrap(), index as nat) == Some(
            new_node,
        ),
{
    lemma_node_at_below(root, index, pos as nat);
    lemma_replaced_below(root, new_node, index, pos as nat);
    let r = replaced_at(root, new_node, index, pos as nat).unwrap();
    lemma_node_at_below(r, index, pos as nat);
}


/// Whether every node of `n`, numbered from `idx` as `index_tree` numbers them, gets an
/// index that fits in a `usize`.
pub open spec fn indexable(n: Node, idx: int) -> bool
    decreases n,
{
    &&& 0 <= idx <= usize::MAX
    &&& match n {
        Node::Terminal(..) => true,
        Node::Branching(_, c1, c2, _) => indexable(*c1, 2 * idx) && indexable(*c2, 2 * idx + 1),
    }
}

/// The tree `n` with its nodes numbered from `idx`: the children of the node numbered `i`
/// get `2 * i` and `2 * i + 1`.
pub open spec fn indexed(n: Node, idx: int) -> Node
    decreases n,
{
    match n {
        Node::Terminal(t, _) => Node::Terminal(t, idx as usize),
        Node::Branching(t, c1, c2, _) => Node::Branching(
            t,
            Box::new(indexed(*c1, 2 * idx)),
            Box::new(indexed(*c2, 2 * idx + 1)),
            idx as usize,
        ),
    }
}

/// Numbering the nodes of the second tree does not change whether it is branch-equal to the
/// first.
proof fn lemma_branch_equal_indexed_right(a: Node, b: Node, idx: int)
    ensures
        branch_equal(a, indexed(b, idx)) == branch_equal(a, b),
    decreases a,
{
    if let Node::Branching(_, c1, c2, _) = a {
        if let Node::Branching(_, o1, o2, _) = b {
            lemma_branch_equal_indexed_right(*c1, *o1, 2 * idx);
            lemma_branch_equal_indexed_right(*c2, *o2, 2 * idx + 1);
            lemma_branch_equal_indexed_right(*c1, *o2, 2 * idx + 1);
            lemma_branch_equal_indexed_right(*c2, *o1, 2 * idx);
        }
    }
}

/// Numbering the nodes of the first tree does not change whether it is branch-equal to the
/// second.
proof fn lemma_branch_equal_indexed_left(a: Node, b: Node, idx: int)
    ensures
        branch_equal(indexed(a, idx), b) == branch_equal(a, b),
    decreases a,
{
    if let Node::Branching(_, c1, c2, _) = a {
        if let Node::Branching(_, o1, o2, _) = b {
            lemma_branch_equal_indexed_left(*c1, *o1, 2 * idx);
            lemma_branch_equal_indexed_left(*c2, *o2, 2 * idx + 1);
            lemma_branch_equal_indexed_left(*c1, *o2, 2 * idx);
            lemma_branch_equal_indexed_left(*c2, *o1, 2 * idx + 1);
        }
    }
}

/// Branch equality never looks at the indexes that nodes carry: numbering either tree (as
/// `index_tree` does), from any index, leaves the answer as it was; in particular a tree is
/// branch-equal to its numbered copy.
pub proof fn lemma_branch_equal_ignores_indexes(a: Node, b: Node, idx_a: int, idx_b: int)
    ensures
        branch_equal(indexed(a, idx_a), indexed(b, idx_b)) == branch_equal(a, b),
        branch_equal(a, indexed(a, idx_a)),
{
    lemma_branch_equal_indexed_left(a, indexed(b, idx_b), idx_a);
    lemma_branch_equal_indexed_right(a, b, idx_b);
    lemma_branch_equal_indexed_right(a, a, idx_a);
    crate::tree::lemma_branch_equal_reflexive(a);
}

/// The index that `index_tree` gives a node from its parent's index and its side.
pub open spec fn own_index(parent_index: usize, is_left: bool, is_root: bool) -> int {
    if is_root {
        1
    } else {
        parent_index * 2 + if is_left {
            0int
        } else {
            1int
        }
    }
}

/// Whether the paths given by the `k` lowest digits of `a` and the `l` lowest digits of `b`
/// part somewhere: at the first step where they differ, they go to different children.
pub open spec fn paths_diverge(a: usize, k: nat, b: usize, l: nat) -> bool
    decreases k,
{
    if k == 0 || l == 0 {
        false
    } else if bit_set(a, (k - 1) as nat) != bit_set(b, (l - 1) as nat) {
        true
    } else {
        paths_diverge(a, (k - 1) as nat, b, (l - 1) as nat)
    }
}

proof fn lemma_replaced_elsewhere(m: Node, new_node: Node, a: usize, k: nat, b: usize, l: nat)
    requires
        replaced_at(m, new_node, a, k) is Some,
        paths_diverge(a, k, b, l),
    ensures
        node_below(replaced_at(m, new_node, a, k).unwrap(), b, l) == node_below(m, b, l),
    decreases k,
{
    if let Node::Branching(_, c1, c2, _) = m {
        if bit_set(a, (k - 1) as nat) == bit_set(b, (l - 1) as nat) {
            if bit_set(a, (k - 1) as nat) {
                lemma_replaced_elsewhere(*c2, new_node, a, (k - 1) as nat, b, (l - 1) as nat);
            } else {
                lemma_replaced_elsewhere(*c1, new_node, a, (k - 1) as nat, b, (l - 1) as nat);
            }
        }
    }
}

/// Replacing a node changes no node off its path: a node whose path parts from the path of
/// the replaced node is found unchanged at its index.
pub proof fn lemma_replace_keeps_others(
    root: Node,
    new_node: Node,
    index: usize,
    pos: usize,
    other: usize,
    other_pos: usize,
)
    requires
        pos < usize::BITS,
        index >> pos == 1,
        other_pos < usize::BITS,
        other >> other_pos == 1,
        replaced_at(root, new_node, index, pos as nat) is Some,
        paths_diverge(index, pos as nat, other, other_pos as nat),
    ensures
        node_at(replaced_at(root, new_node, index, pos as nat).unwrap(), other as nat) == node_at(
            root,
            other as nat,
        ),
{
    let r = replaced_at(root, new_node, index, pos as nat).unwrap();
    lemma_node_at_below(root, other, other_pos as nat);
    lemma_node_at_below(r, other, other_pos as nat);
    lemma_replaced_elsewhere(root, new_node, index, pos as nat, other, other_pos as nat);
}

/// Numbers the nodes of the tree: the root gets 1 when `is_root`, and otherwise the node gets
/// `2 * parent_index` on the left and `2 * parent_index + 1` on the right; the children of
/// the node numbered `i` get `2 * i` and `2 * i + 1`.
pub fn index_tree(original_tree: Node, parent_index: usize, is_left: bool, is_root: bool) -> (r:
    Node)
    requires
        indexable(original_tree, own_index(parent_index, is_left, is_root)),
    ensures
        r == indexed(original_tree, own_index(parent_index, is_left, is_root)),
    decreases original_tree,
{
    let self_index: usize = if is_root {
        1
    } else {
        parent_index * 2 + if is_left {
            0
        } else {
            1
        }
    };
    match original_tree {
        Node::Branching(token, child_1, child_2, ..) => {
            let left = index_tree(*child_1, self_index, true, false);
            let right = index_tree(*child_2, self_index, false, false);
            Node::Branching(token, Box::new(left), Box::new(right), self_index)
        },
        Node::Terminal(token, ..) => Node::Terminal(token, self_index),
    }
}

/// Whether the children of every branching node of `n` carry the indexes `2 * i` and
/// `2 * i + 1`, where `i` is the node's own index.
pub open spec fn consistently_indexed(n: Node) -> bool
    decreases n,
{
    match n {
        Node::Terminal(..) => true,
        Node::Branching(_, c1, c2, i) => {
            &&& node_index(*c1) == 2 * i
            &&& node_index(*c2) == 2 * i + 1
            &&& consistently_indexed(*c1)
            &&& consistently_indexed(*c2)
        },
    }
}

pub proof fn lemma_indexed_consistent(n: Node, idx: int)
    requires
        indexable(n, idx),
    ensures
        consistently_indexed(indexed(n, idx)),
        node_index(indexed(n, idx)) == idx,
    decreases n,
{
    if let Node::Branching(_, c1, c2, _) = n {
        lemma_indexed_consistent(*c1, 2 * idx);
        lemma_indexed_consistent(*c2, 2 * idx + 1);
    }
}

proof fn lemma_consistent_node_at(root: Node, i: nat)
    requires
        consistently_indexed(root),
        node_index(root) == 1,
        i >= 1,
        node_at(root, i) is Some,
    ensures
        consistently_indexed(node_at(root, i).unwrap()),
        node_index(node_at(root, i).unwrap()) == i,
    decreases i,
{
    if i > 1 {
        lemma_consistent_node_at(root, i / 2);
    }
}

/// After numbering a whole tree, the node found at an index carries that index: for every
/// `i >= 1` at which `node_at` finds a node in `indexed(tree, 1)`, that node's index is `i`.
pub proof fn lemma_index_tree_finds_own_index(tree: Node, i: nat)
    requires
        indexable(tree, 1),
        i >= 1,
        node_at(indexed(tree, 1), i) is Some,
    ensures
        node_index(node_at(indexed(tree, 1), i).unwrap()) == i,
{
    lemma_indexed_consistent(tree, 1);
    lemma_consistent_node_at(indexed(tree, 1), i);
}


/// Whether every node of `n`, numbered from `idx` as `index_tree` numbers them, gets an index
/// that fits in a `usize` (see `indexable`).
pub fn fits_indexes(n: &Node, idx: usize) -> (r: bool)
    ensures
        r == indexable(*n, idx as int),
    decreases n,
{
    match n {
        Node::Terminal(..) => true,
        Node::Branching(_, c1, c2, _) => {
            if idx > (usize::MAX - 1) / 2 {
                assert(2 * idx + 1 > usize::MAX) by (nonlinear_arith)
                    requires
                        idx > (usize::MAX - 1) / 2,
                ;
                assert(!indexable(**c2, 2 * idx + 1));
                return false;
            }
            fits_indexes(c1, 2 * idx) && fits_indexes(c2, 2 * idx + 1)
        },
    }
}

/// Numbering a tree keeps its shape.
pub proof fn lemma_indexed_well_shaped(n: Node, idx: int)
    requires
        well_shaped(n),
    ensures
        well_shaped(indexed(n, idx)),
    decreases n,
{
    if let Node::Branching(_, c1, c2, _) = n {
        lemma_indexed_well_shaped(*c1, 2 * idx);
        lemma_indexed_well_shaped(*c2, 2 * idx + 1);
    }
}


/// Returns the node with the given index (see `node_at`), or none if the path to it runs into
/// a terminal.
pub fn find_node_by_index(root_node: &Node, index: usize) -> (r: Option<&Node>)
    ensures
        r is Some <==> node_at(*root_node, index as nat) is Some,
        r matches Some(n) ==> *n == node_at(*root_node, index as nat).unwrap(),
    decreases index,
{
    if index <= 1 {
        return Some(root_node);
    }
    match find_node_by_index(root_node, index / 2) {
        Some(Node::Branching(_, child_1, child_2, _)) => Some(
            if index % 2 == 0 {
                &**child_1
            } else {
                &**child_2
            },
        ),
        _ => None,
    }
}

} // verus!
