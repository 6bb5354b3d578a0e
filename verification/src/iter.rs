//! Walking a tree in pre-order.
use vstd::prelude::*;
use std::collections::VecDeque;
use crate::token::TokenCategory;
use crate::tree::{Node, any_child_of_type, contains_category, node_category};

verus! {

/// The nodes of `n` in pre-order: each node before its first subtree, and that before its
/// second.
pub open spec fn preorder(n: Node) -> Seq<Node>
    decreases n,
{
    match n {
        Node::Terminal(..) => seq![n],
        Node::Branching(_, c1, c2, _) => seq![n] + preorder(*c1) + preorder(*c2),
    }
}

/// The nodes strictly below `n`, in pre-order.
pub open spec fn below(n: Node) -> Seq<Node> {
    match n {
        Node::Terminal(..) => Seq::empty(),
        Node::Branching(_, c1, c2, _) => preorder(*c1) + preorder(*c2),
    }
}

/// The nodes of the subtrees on a stack, in pre-order, from the top of the stack down.
pub open spec fn stack_order<'a>(s: Seq<&'a Node>) -> Seq<Node>
    decreases s.len(),
{
    if s.len() == 0 {
        Seq::empty()
    } else {
        preorder(*s.last()) + stack_order(s.drop_last())
    }
}

/// A walk over the nodes of a tree in pre-order. The subtrees still to be walked wait on
/// `unexplored`, the nearest on top; setting `skip_next_branch` makes the next step leave out
/// the subtree below the current node.
pub struct TreeIterator<'a> {
    pub current: Option<&'a Node>,
    pub root_node: &'a Node,
    pub unexplored: VecDeque<&'a Node>,
    pub skip_next_branch: bool,
}

impl<'a> TreeIterator<'a> {
    /// The nodes that the walk will yield from here on, if nothing is skipped: what lies
    /// below the current node, then the waiting subtrees. A walk that has not started (or has
    /// come to its end) yields the whole tree.
    pub open spec fn pending(&self) -> Seq<Node> {
        match self.current {
            Some(c) => below(*c) + stack_order(self.unexplored@),
            None => preorder(*self.root_node),
        }
    }

    /// The next node of the walk. Without a skip: the root first; after a branching node, its
    /// first child, with the second put on the stack; after a terminal, the top of the stack.
    /// With a skip: the top of the stack, leaving out what lies below the current node.
    pub fn next(&mut self) -> (r: Option<&'a Node>)
        ensures
            walk_step(*old(self), *final(self)),
            r == final(self).current,
    {
        if self.skip_next_branch {
            self.current = self.unexplored.pop_back();
            self.skip_next_branch = false;
            return self.current;
        }
        self.current = match self.current {
            Some(current_node) => match current_node {
                Node::Branching(_, child_1, child_2, _) => {
                    self.unexplored.push_back(&**child_2);
                    Some(&**child_1)
                },
                Node::Terminal(..) => self.unexplored.pop_back(),
            },
            None => Some(self.root_node),
        };
        self.current
    }
}

/// One step of a walk, from `before` to `after`, as `next` takes it. Without a skip: the
/// root first; after a branching node, its first child, with the second put on the stack;
/// after a terminal, the top of the stack. With a skip: the top of the stack. An empty stack
/// where a node is wanted from it ends the walk (`current` becomes `None`). The skip is cleared.
pub open spec fn walk_step<'a>(before: TreeIterator<'a>, after: TreeIterator<'a>) -> bool {
    &&& after.root_node == before.root_node
    &&& !after.skip_next_branch
    &&& before.skip_next_branch ==> pop_step(before, after)
    &&& !before.skip_next_branch ==> match before.current {
        None => after.current == Some(before.root_node) && after.unexplored@
            == before.unexplored@,
        Some(c) => match *c {
            Node::Branching(_, c1, c2, _) => after.current == Some(&*c1) && after.unexplored@
                == before.unexplored@.push(&*c2),
            Node::Terminal(..) => pop_step(before, after),
        },
    }
}

/// A step that takes the top of the stack as the current node, or ends the walk where the
/// stack is empty.
pub open spec fn pop_step<'a>(before: TreeIterator<'a>, after: TreeIterator<'a>) -> bool {
    &&& before.unexplored@.len() > 0 ==> after.current == Some(before.unexplored@.last())
        && after.unexplored@ == before.unexplored@.drop_last()
    &&& before.unexplored@.len() == 0 ==> after.current is None && after.unexplored@
        == before.unexplored@
}

/// Starts a pre-order walk over the tree.
pub fn construct_tree_iterator(root_node: &Node) -> (r: TreeIterator<'_>)
    ensures
        r.current is None,
        r.root_node == root_node,
        r.unexplored@.len() == 0,
        !r.skip_next_branch,
        r.pending() == preorder(*root_node),
{
    TreeIterator {
        current: None,
        root_node,
        unexplored: VecDeque::new(),
        skip_next_branch: false,
    }
}

/// Whether a walk's state is one that walks reach: before the start (and after the end)
/// nothing waits on the stack.
pub open spec fn walk_state_ok(it: TreeIterator) -> bool {
    it.current is None ==> it.unexplored@.len() == 0
}

proof fn lemma_preorder_first(n: Node)
    ensures
        preorder(n).len() > 0,
        preorder(n)[0] == n,
        preorder(n).drop_first() == below(n),
{
    match n {
        Node::Terminal(..) => {
            assert(preorder(n).drop_first() =~= below(n));
        },
        Node::Branching(_, c1, c2, _) => {
            assert(preorder(n).drop_first() =~= below(n));
        },
    }
}

/// One step of a walk that skips nothing yields the first pending node and leaves the rest
/// pending; when nothing is pending, it yields `None`. So a walk from the start, without
/// skips, yields the nodes of the tree in pre-order and then `None`.
pub proof fn lemma_next_yields_pending(before: TreeIterator, after: TreeIterator, r: Option<&Node>)
    requires
        walk_state_ok(before),
        !before.skip_next_branch,
        after.root_node == before.root_node,
        r == after.current,
        match before.current {
            None => r == Some(before.root_node) && after.unexplored@ == before.unexplored@,
            Some(c) => match *c {
                Node::Branching(_, c1, c2, _) => r == Some(&*c1) && after.unexplored@
                    == before.unexplored@.push(&*c2),
                Node::Terminal(..) => {
                    &&& before.unexplored@.len() > 0 ==> r == Some(before.unexplored@.last())
                        && after.unexplored@ == before.unexplored@.drop_last()
                    &&& before.unexplored@.len() == 0 ==> r is None && after.unexplored@
                        == before.unexplored@
                },
            },
        },
    ensures
        walk_state_ok(after),
        before.pending().len() == 0 ==> r is None,
        before.pending().len() > 0 ==> {
            &&& r is Some
            &&& before.pending()[0] == *r.unwrap()
            &&& after.pending() == before.pending().drop_first()
        },
{
    match before.current {
        None => {
            lemma_preorder_first(*before.root_node);
            assert(stack_order(after.unexplored@) =~= Seq::<Node>::empty());
            assert(after.pending() =~= before.pending().drop_first());
        },
        Some(c) => {
            let u = before.unexplored@;
            match *c {
                Node::Branching(_, c1, c2, _) => {
                    lemma_preorder_first(*c1);
                    assert(u.push(&*c2).drop_last() =~= u);
                    assert(after.pending() =~= before.pending().drop_first());
                },
                Node::Terminal(..) => {
                    if u.len() > 0 {
                        lemma_preorder_first(*u.last());
                        assert(after.pending() =~= before.pending().drop_first());
                    } else {
                        assert(before.pending() =~= Seq::<Node>::empty());
                    }
                },
            }
        },
    }
}

/// After `m` steps of a walk from the start that sets no skip, the nodes of the pre-order from
/// position `m` on are still pending.
proof fn lemma_walk_pending(steps: Seq<TreeIterator>, m: int)
    requires
        0 <= m < steps.len(),
        m <= preorder(*steps[0].root_node).len(),
        steps[0].current is None,
        steps[0].unexplored@.len() == 0,
        !steps[0].skip_next_branch,
        forall|k: int| 0 <= k < steps.len() - 1 ==> walk_step(#[trigger] steps[k], steps[k + 1]),
    ensures
        steps[m].root_node == steps[0].root_node,
        !steps[m].skip_next_branch,
        walk_state_ok(steps[m]),
        steps[m].pending() == preorder(*steps[0].root_node).subrange(
            m,
            preorder(*steps[0].root_node).len() as int,
        ),
    decreases m,
{
    let p = preorder(*steps[0].root_node);
    if m == 0 {
        assert(p.subrange(0, p.len() as int) =~= p);
    } else {
        lemma_walk_pending(steps, m - 1);
        assert(walk_step(steps[m - 1], steps[m]));
        lemma_next_yields_pending(steps[m - 1], steps[m], steps[m].current);
        assert(p.subrange(m - 1, p.len() as int).drop_first() =~= p.subrange(m, p.len() as int));
    }
}

/// A walk from the start that sets no skip, called again and again, yields the nodes of the
/// tree in pre-order, each once, then `None`, and then starts over at the root.
pub proof fn lemma_walk_yields_preorder(steps: Seq<TreeIterator>)
    requires
        steps.len() > 0,
        steps[0].current is None,
        steps[0].unexplored@.len() == 0,
        !steps[0].skip_next_branch,
        forall|k: int| 0 <= k < steps.len() - 1 ==> walk_step(#[trigger] steps[k], steps[k + 1]),
    ensures
        forall|k: int|
            1 <= k < steps.len() && k <= preorder(*steps[0].root_node).len() ==> (
            #[trigger] steps[k].current) is Some && *steps[k].current.unwrap() == preorder(
                *steps[0].root_node,
            )[k - 1],
        steps.len() > preorder(*steps[0].root_node).len() + 1 ==> steps[preorder(
            *steps[0].root_node,
        ).len() + 1int].current is None,
        steps.len() > preorder(*steps[0].root_node).len() + 2 ==> steps[preorder(
            *steps[0].root_node,
        ).len() + 2int].current == Some(steps[0].root_node),
{
    let p = preorder(*steps[0].root_node);
    let n = p.len() as int;
    assert forall|k: int| 1 <= k < steps.len() && k <= n implies (
    #[trigger] steps[k].current) is Some && *steps[k].current.unwrap() == p[k - 1] by {
        lemma_walk_pending(steps, k - 1);
        assert(walk_step(steps[k - 1], steps[k]));
        lemma_next_yields_pending(steps[k - 1], steps[k], steps[k].current);
    }
    if steps.len() > n + 1 {
        lemma_walk_pending(steps, n);
        assert(walk_step(steps[n], steps[n + 1]));
        lemma_next_yields_pending(steps[n], steps[n + 1], steps[n + 1].current);
        if steps.len() > n + 2 {
            assert(walk_step(steps[n + 1], steps[n + 2]));
        }
    }
}

/// The nodes strictly below a branching node, or a terminal itself: where
/// `get_any_child_of_type` looks.
pub open spec fn searched(n: Node) -> Seq<Node> {
    match n {
        Node::Terminal(..) => seq![n],
        Node::Branching(..) => below(n),
    }
}

proof fn lemma_searched_in_preorder(m: Node, d: Node)
    requires
        searched(m).contains(d),
    ensures
        preorder(m).contains(d),
{
    lemma_preorder_first(m);
    let k = choose|k: int| 0 <= k < searched(m).len() && searched(m)[k] == d;
    if m is Branching {
        assert(preorder(m)[k + 1] == d);
    } else {
        assert(preorder(m)[0] == d);
    }
}

proof fn lemma_preorder_in_below(n: Node, m: Node, d: Node, first: bool)
    requires
        n matches Node::Branching(_, c1, c2, _) && m == if first {
            *c1
        } else {
            *c2
        },
        preorder(m).contains(d),
    ensures
        below(n).contains(d),
{
    if let Node::Branching(_, c1, c2, _) = n {
        let k = choose|k: int| 0 <= k < preorder(m).len() && preorder(m)[k] == d;
        if first {
            assert(below(n)[k] == d);
        } else {
            assert(below(n)[preorder(*c1).len() + k] == d);
        }
    }
}

/// The search of `get_any_child_of_type` finds a node of the category where there is one
/// strictly below a branching node (or where a terminal has the category itself), and what it
/// finds is such a node.
pub proof fn lemma_any_child_found_below(n: Node, category: TokenCategory)
    ensures
        (any_child_of_type(n, category) is Some) == match n {
            Node::Terminal(..) => node_category(n) == category,
            Node::Branching(_, c1, c2, _) => contains_category(*c1, category) || contains_category(
                *c2,
                category,
            ),
        },
        any_child_of_type(n, category) matches Some(d) ==> node_category(d) == category
            && searched(n).contains(d),
    decreases n,
{
    if let Node::Branching(_, c1, c2, _) = n {
        lemma_any_child_found_below(*c1, category);
        lemma_any_child_found_below(*c2, category);
        lemma_preorder_first(*c1);
        lemma_preorder_first(*c2);
        if node_category(*c1) == category {
            assert(preorder(*c1)[0] == *c1);
            lemma_preorder_in_below(n, *c1, *c1, true);
        } else if node_category(*c2) == category {
            assert(preorder(*c2)[0] == *c2);
            lemma_preorder_in_below(n, *c2, *c2, false);
        } else if any_child_of_type(*c1, category) is Some {
            let d = any_child_of_type(*c1, category).unwrap();
            lemma_searched_in_preorder(*c1, d);
            lemma_preorder_in_below(n, *c1, d, true);
        } else if any_child_of_type(*c2, category) is Some {
            let d = any_child_of_type(*c2, category).unwrap();
            lemma_searched_in_preorder(*c2, d);
            lemma_preorder_in_below(n, *c2, d, false);
        }
    } else {
        assert(searched(n)[0] == n);
    }
}

} // verus!
