//! Finding the parts of a tree that can be simplified.
use vstd::prelude::*;
use crate::token::TokenCategory;
use crate::tree::{Node, node_index};
use crate::path::{node_at, consistently_indexed};
use crate::iter::preorder;

verus! {

/// Whether every terminal of `n` is a constant.
pub open spec fn all_constant(n: Node) -> bool
    decreases n,
{
    match n {
        Node::Terminal(t, _) => t.token_type == TokenCategory::Constant,
        Node::Branching(_, c1, c2, _) => all_constant(*c1) && all_constant(*c2),
    }
}

/// The indexes that `get_simplifiable_nodes` records below `n`: those of the subtrees of
/// constants whose sibling is not all constant, the deepest first, left before right.
pub open spec fn simplifiable_indexes(n: Node) -> Seq<usize>
    decreases n,
{
    match n {
        Node::Terminal(..) => Seq::empty(),
        Node::Branching(_, c1, c2, _) => {
            simplifiable_indexes(*c1) + simplifiable_indexes(*c2) + (if all_constant(*c1)
                && !all_constant(*c2) {
                seq![node_index(*c1)]
            } else {
                Seq::empty()
            }) + (if !all_constant(*c1) && all_constant(*c2) {
                seq![node_index(*c2)]
            } else {
                Seq::empty()
            })
        },
    }
}

/// Records in `found_nodes` the indexes of the largest subtrees of constants below a
/// branching node (see `simplifiable_indexes`), and returns whether the whole node is made
/// of constants.
pub fn get_simplifiable_nodes(parent_node: &Node, found_nodes: &mut Vec<usize>) -> (r: bool)
    requires
        parent_node is Branching,
    ensures
        r == all_constant(*parent_node),
        final(found_nodes)@ == old(found_nodes)@ + simplifiable_indexes(*parent_node),
    decreases parent_node,
{
    match parent_node {
        Node::Branching(_, child_1, child_2, _) => {
            let ghost start = found_nodes@;
            let child0valid: bool = match &**child_1 {
                Node::Terminal(token, _) => token.token_type == TokenCategory::Constant,
                Node::Branching(..) => get_simplifiable_nodes(child_1, found_nodes),
            };
            let ghost middle = found_nodes@;
            let child1valid: bool = match &**child_2 {
                Node::Terminal(token, _) => token.token_type == TokenCategory::Constant,
                Node::Branching(..) => get_simplifiable_nodes(child_2, found_nodes),
            };
            let ghost end = found_nodes@;
            assert(middle == start + simplifiable_indexes(**child_1));
            assert(end == middle + simplifiable_indexes(**child_2));
            if child0valid && !child1valid {
                found_nodes.push(child_1.index());
            }
            if !child0valid && child1valid {
                found_nodes.push(child_2.index());
            }
            assert(found_nodes@ =~= start + simplifiable_indexes(*parent_node));
            child0valid && child1valid
        },
        Node::Terminal(..) => {
            proof {
                assert(false);
            }
            false
        },
    }
}


proof fn lemma_simplifiable_located(root: Node, m: Node)
    requires
        consistently_indexed(m),
        node_index(m) >= 1,
        node_at(root, node_index(m) as nat) == Some(m),
    ensures
        forall|k: int|
            0 <= k < simplifiable_indexes(m).len() ==> (node_at(
                root,
                #[trigger] simplifiable_indexes(m)[k] as nat,
            ) matches Some(x) && all_constant(x)),
    decreases m,
{
    if let Node::Branching(_, c1, c2, i) = m {
        lemma_simplifiable_located(root, *c1);
        lemma_simplifiable_located(root, *c2);
        let s1 = simplifiable_indexes(*c1);
        let s2 = simplifiable_indexes(*c2);
        let s = simplifiable_indexes(m);
        assert forall|k: int| 0 <= k < s.len() implies (node_at(
            root,
            #[trigger] s[k] as nat,
        ) matches Some(x) && all_constant(x)) by {
            if k < s1.len() {
                assert(s[k] == s1[k]);
            } else if k < s1.len() + s2.len() {
                assert(s[k] == s2[k - s1.len()]);
            }
        }
    }
}

/// In a numbered tree, every index that `get_simplifiable_nodes` records names a subtree made
/// only of constants.
pub proof fn lemma_simplifiable_are_constant(root: Node)
    requires
        consistently_indexed(root),
        node_index(root) == 1,
    ensures
        forall|k: int|
            0 <= k < simplifiable_indexes(root).len() ==> (node_at(
                root,
                #[trigger] simplifiable_indexes(root)[k] as nat,
            ) matches Some(x) && all_constant(x)),
{
    lemma_simplifiable_located(root, root);
}

/// Whether, at the branching node `m`, a child made only of constants has the index `x`
/// while its sibling is not made only of constants.
pub open spec fn constant_child_beside_other(m: Node, x: usize) -> bool {
    match m {
        Node::Terminal(..) => false,
        Node::Branching(_, c1, c2, _) => (all_constant(*c1) && !all_constant(*c2) && x
            == node_index(*c1)) || (!all_constant(*c1) && all_constant(*c2) && x == node_index(
            *c2,
        )),
    }
}

/// Whether `x` is the index of a constant child beside a non-constant sibling at some node
/// of `n`.
pub open spec fn constant_child_somewhere(n: Node, x: usize) -> bool {
    exists|k: int| 0 <= k < preorder(n).len() && #[trigger] constant_child_beside_other(preorder(n)[k], x)
}

/// What `get_simplifiable_nodes` records below `n` is exactly this: wherever in the tree one
/// child of a branching node is made only of constants and the other is not, whichever side
/// it is on, the index of the constant child is recorded; and every recorded index is such a
/// child's.
pub proof fn lemma_simplifiable_are_the_constant_children(n: Node)
    ensures
        forall|k: int, x: usize|
            0 <= k < preorder(n).len() && #[trigger] constant_child_beside_other(
                preorder(n)[k],
                x,
            ) ==> simplifiable_indexes(n).contains(x),
        forall|j: int|
            0 <= j < simplifiable_indexes(n).len() ==> constant_child_somewhere(
                n,
                #[trigger] simplifiable_indexes(n)[j],
            ),
    decreases n,
{
    if let Node::Branching(_, c1, c2, _) = n {
        lemma_simplifiable_are_the_constant_children(*c1);
        lemma_simplifiable_are_the_constant_children(*c2);
        let p = preorder(n);
        let p1 = preorder(*c1);
        let p2 = preorder(*c2);
        let s = simplifiable_indexes(n);
        let s1 = simplifiable_indexes(*c1);
        let s2 = simplifiable_indexes(*c2);
        assert(p[0] == n);
        assert forall|k: int, x: usize|
            0 <= k < p.len() && #[trigger] constant_child_beside_other(p[k], x) implies s.contains(
            x,
        ) by {
            if k == 0 {
                let j = (s1.len() + s2.len()) as int;
                assert(s[j] == x);
            } else if k < 1 + p1.len() {
                assert(p[k] == p1[k - 1]);
                let j = choose|j: int| 0 <= j < s1.len() && s1[j] == x;
                assert(s[j] == x);
            } else {
                assert(p[k] == p2[k - 1 - p1.len()]);
                let j = choose|j: int| 0 <= j < s2.len() && s2[j] == x;
                assert(s[s1.len() + j] == x);
            }
        }
        assert forall|j: int| 0 <= j < s.len() implies constant_child_somewhere(n, #[trigger] s[j]) by {
            if j < s1.len() {
                assert(s[j] == s1[j]);
                assert(constant_child_somewhere(*c1, s1[j]));
                let k = choose|k: int|
                    0 <= k < p1.len() && constant_child_beside_other(p1[k], s1[j]);
                assert(p[1 + k] == p1[k]);
                assert(constant_child_beside_other(p[1 + k], s[j]));
            } else if j < s1.len() + s2.len() {
                assert(s[j] == s2[j - s1.len()]);
                assert(constant_child_somewhere(*c2, s2[j - s1.len()]));
                let k = choose|k: int|
                    0 <= k < p2.len() && constant_child_beside_other(p2[k], s2[j - s1.len()]);
                assert(p[1 + p1.len() + k] == p2[k]);
                assert(constant_child_beside_other(p[1 + p1.len() + k], s[j]));
            } else {
                assert(constant_child_beside_other(p[0], s[j]));
            }
        }
    }
}

} // verus!
