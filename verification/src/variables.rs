//! Finding the variables of a tree, and where they occur.
use vstd::prelude::*;
use crate::token::TokenCategory;
use crate::tree::{
    Node, node_token, node_index, well_shaped, branch_equal, immediate_child_of_type,
    vec_contains_identical_node, text_is, is_variable_product, is_node_variable_coefficient,
    check_holds, NodeCheck, lemma_branch_equal_reflexive, comparable,
    lemma_well_shaped_comparable,
};
use crate::path::{node_at, consistently_indexed, lemma_node_at_parent};
use crate::iter::{
    preorder, construct_tree_iterator, walk_state_ok, lemma_next_yields_pending, TreeIterator,
};

verus! {

/// Whether a numbered tree is ready for searching by index: it is well-shaped, its root has
/// index 1, and the children of each node carry the indexes `2 * i` and `2 * i + 1`.
pub open spec fn searchable(root: Node) -> bool {
    &&& well_shaped(root)
    &&& consistently_indexed(root)
    &&& node_index(root) == 1
}

/// Every node of a numbered tree is found at its own index.
proof fn lemma_preorder_located(root: Node, m: Node)
    requires
        well_shaped(m),
        consistently_indexed(m),
        node_index(m) >= 1,
        node_at(root, node_index(m) as nat) == Some(m),
    ensures
        forall|k: int|
            0 <= k < preorder(m).len() ==> {
                &&& node_at(root, node_index(#[trigger] preorder(m)[k]) as nat) == Some(
                    preorder(m)[k],
                )
                &&& node_index(preorder(m)[k]) >= 1
                &&& well_shaped(preorder(m)[k])
                &&& consistently_indexed(preorder(m)[k])
            },
    decreases m,
{
    if let Node::Branching(_, c1, c2, i) = m {
        lemma_preorder_located(root, *c1);
        lemma_preorder_located(root, *c2);
        let p = preorder(m);
        let p1 = preorder(*c1);
        let p2 = preorder(*c2);
        assert forall|k: int| 0 <= k < p.len() implies {
            &&& node_at(root, node_index(#[trigger] p[k]) as nat) == Some(p[k])
            &&& node_index(p[k]) >= 1
            &&& well_shaped(p[k])
            &&& consistently_indexed(p[k])
        } by {
            if k == 0 {
            } else if k < 1 + p1.len() {
                assert(p[k] == p1[k - 1]);
            } else {
                assert(p[k] == p2[k - 1 - p1.len()]);
            }
        }
    }
}

/// Whether a node found on the walk is one of the tree's variables: a variable that is not
/// the operand of a power, or a power with a variable operand.
pub open spec fn is_variable_candidate(root: Node, n: Node) -> bool {
    match n {
        Node::Terminal(t, idx) => {
            let parent = node_token(node_at(root, (idx / 2) as nat).unwrap());
            t.token_type == TokenCategory::Variable && !(parent.token_type
                == TokenCategory::Operator && parent.token@ == seq!['^'])
        },
        Node::Branching(t, _, _, _) => t.token@ == seq!['^'] && immediate_child_of_type(
            n,
            TokenCategory::Variable,
        ) is Some,
    }
}

/// Whether some node of the list is branch-equal to `n`.
pub open spec fn listed(list: Seq<Node>, n: Node) -> bool {
    exists|j: int| 0 <= j < list.len() && branch_equal(#[trigger] list[j], n)
}

/// The list of variables after looking at one more node.
pub open spec fn unique_step(acc: Seq<Node>, n: Node, root: Node) -> Seq<Node> {
    if listed(acc, n) {
        acc
    } else if is_variable_candidate(root, n) {
        acc.push(n)
    } else {
        acc
    }
}

/// The list of variables after looking at the nodes `ns` in order.
pub open spec fn unique_over(root: Node, ns: Seq<Node>) -> Seq<Node>
    decreases ns.len(),
{
    if ns.len() == 0 {
        Seq::empty()
    } else {
        unique_step(unique_over(root, ns.drop_last()), ns.last(), root)
    }
}

/// The distinct variables of the tree (see `is_variable_candidate`), up to branch equality, in
/// the order in which a pre-order walk first meets them.
pub fn find_unique_variables(root_node: &Node) -> (r: Vec<Node>)
    requires
        searchable(*root_node),
    ensures
        r@ == unique_over(*root_node, preorder(*root_node)),
        forall|j: int| 0 <= j < r@.len() ==> well_shaped(#[trigger] r@[j]),
{
    let mut unique_variables: Vec<Node> = Vec::new();
    let mut iterator = construct_tree_iterator(root_node);
    let ghost mut visited: Seq<Node> = Seq::empty();
    proof {
        lemma_preorder_located(*root_node, *root_node);
    }
    assert(visited + iterator.pending() =~= preorder(*root_node));
    loop
        invariant
            searchable(*root_node),
            iterator.root_node == root_node,
            walk_state_ok(iterator),
            !iterator.skip_next_branch,
            visited + iterator.pending() == preorder(*root_node),
            unique_variables@ == unique_over(*root_node, visited),
            forall|k: int|
                0 <= k < preorder(*root_node).len() ==> {
                    &&& node_at(
                        *root_node,
                        node_index(#[trigger] preorder(*root_node)[k]) as nat,
                    ) == Some(preorder(*root_node)[k])
                    &&& node_index(preorder(*root_node)[k]) >= 1
                    &&& well_shaped(preorder(*root_node)[k])
                },
            forall|j: int|
                0 <= j < unique_variables@.len() ==> well_shaped(#[trigger] unique_variables@[j]),
        decreases iterator.pending().len(),
    {
        let ghost before = iterator;
        let next = iterator.next();
        proof {
            lemma_next_yields_pending(before, iterator, next);
        }
        let node = match next {
            None => {
                assert(visited =~= preorder(*root_node));
                return unique_variables;
            },
            Some(node) => node,
        };
        let ghost k = visited.len() as int;
        assert(preorder(*root_node)[k] == *node);
        proof {
            let old_visited = visited;
            visited = visited.push(*node);
            assert(visited.drop_last() =~= old_visited);
            assert(visited + iterator.pending() =~= old_visited + before.pending());
        }
        proof {
            assert forall|i: int| 0 <= i < unique_variables@.len() implies comparable(
                #[trigger] unique_variables@[i],
                *node,
            ) by {
                lemma_well_shaped_comparable(unique_variables@[i], *node);
            }
        }
        if vec_contains_identical_node(&unique_variables, node) {
            continue;
        }
        match node {
            Node::Terminal(token, index) => {
                if token.token_type != TokenCategory::Variable {
                    continue;
                }
                proof {
                    lemma_node_at_parent(*root_node, *index as nat);
                }
                let parent_node = get_parent_of_node_token(root_node, *index);
                if parent_node.token_type == TokenCategory::Operator && text_is(
                    &parent_node.token,
                    '^',
                ) {
                    continue;
                }
                unique_variables.push(node.clone());
            },
            Node::Branching(token, ..) => {
                if !text_is(&token.token, '^') {
                    continue;
                }
                if let None = node.get_immediate_child_of_type(TokenCategory::Variable) {
                    continue;
                }
                unique_variables.push(node.clone());
            },
        }
    }
}

/// The token of the parent of the node with the given index.
fn get_parent_of_node_token(root_node: &Node, index: usize) -> (r: &crate::token::Token)
    requires
        node_at(*root_node, (index / 2) as nat) is Some,
    ensures
        *r == node_token(node_at(*root_node, (index / 2) as nat).unwrap()),
{
    crate::path::get_parent_of_node(root_node, index).get_token()
}


/// The first position, from `i` on, of a node of the list that is branch-equal to `n`.
pub open spec fn first_listed_from(list: Seq<Node>, n: Node, i: int) -> Option<int>
    decreases list.len() - i,
{
    if i < 0 || i >= list.len() {
        None
    } else if branch_equal(list[i], n) {
        Some(i)
    } else {
        first_listed_from(list, n, i + 1)
    }
}

/// The first position of a node of the list that is branch-equal to `n`.
pub open spec fn first_listed(list: Seq<Node>, n: Node) -> Option<int> {
    first_listed_from(list, n, 0)
}

/// Returns the first position of a node of the list that is branch-equal to `node`.
fn position_of(list: &Vec<Node>, node: &Node) -> (r: Option<usize>)
    requires
        forall|j: int| 0 <= j < list.len() ==> well_shaped(#[trigger] list@[j]),
        well_shaped(*node),
    ensures
        r is None <==> first_listed(list@, *node) is None,
        r matches Some(k) ==> first_listed(list@, *node) == Some(k as int),
{
    let mut i: usize = 0;
    while i < list.len()
        invariant
            i <= list.len(),
            forall|j: int| 0 <= j < list.len() ==> well_shaped(#[trigger] list@[j]),
            well_shaped(*node),
            first_listed(list@, *node) == first_listed_from(list@, *node, i as int),
        decreases list.len() - i,
    {
        proof {
            lemma_well_shaped_comparable(list@[i as int], *node);
        }
        if list[i].is_branch_equal_to(node) {
            return Some(i);
        }
        i = i + 1;
    }
    None
}

/// The nodes of `n` in pre-order, except that the walk does not go below a product of a
/// constant and a variable (see `is_variable_product`).
pub open spec fn pruned_preorder(n: Node) -> Seq<Node>
    decreases n,
{
    if is_variable_product(n) {
        seq![n]
    } else {
        match n {
            Node::Terminal(..) => seq![n],
            Node::Branching(_, c1, c2, _) => seq![n] + pruned_preorder(*c1) + pruned_preorder(*c2),
        }
    }
}

/// The nodes strictly below `n` in the pruned walk.
pub open spec fn pruned_below(n: Node) -> Seq<Node> {
    if is_variable_product(n) {
        Seq::empty()
    } else {
        match n {
            Node::Terminal(..) => Seq::empty(),
            Node::Branching(_, c1, c2, _) => pruned_preorder(*c1) + pruned_preorder(*c2),
        }
    }
}

/// The nodes of the subtrees on a stack in the pruned walk, from the top of the stack down.
pub open spec fn pruned_stack_order<'a>(s: Seq<&'a Node>) -> Seq<Node>
    decreases s.len(),
{
    if s.len() == 0 {
        Seq::empty()
    } else {
        pruned_preorder(*s.last()) + pruned_stack_order(s.drop_last())
    }
}

/// What a walk that skips below each product still has to yield.
pub open spec fn pruned_pending(it: TreeIterator) -> Seq<Node> {
    match it.current {
        Some(c) => pruned_below(*c) + pruned_stack_order(it.unexplored@),
        None => pruned_preorder(*it.root_node),
    }
}

proof fn lemma_pruned_first(n: Node)
    ensures
        pruned_preorder(n).len() > 0,
        pruned_preorder(n)[0] == n,
        pruned_preorder(n).drop_first() == pruned_below(n),
{
    assert(pruned_preorder(n).drop_first() =~= pruned_below(n));
}

/// A walk that skips below each product, and nothing else, yields the pruned pre-order.
proof fn lemma_next_yields_pruned(before: TreeIterator, after: TreeIterator, r: Option<&Node>)
    requires
        walk_state_ok(before),
        before.current matches Some(c) ==> (is_variable_product(*c) <==> before.skip_next_branch),
        before.current is None ==> !before.skip_next_branch,
        after.root_node == before.root_node,
        r == after.current,
        before.skip_next_branch ==> {
            &&& before.unexplored@.len() > 0 ==> r == Some(before.unexplored@.last())
                && after.unexplored@ == before.unexplored@.drop_last()
            &&& before.unexplored@.len() == 0 ==> r is None && after.unexplored@
                == before.unexplored@
        },
        !before.skip_next_branch ==> match before.current {
            None => r == Some(before.root_node) && after.unexplored@ == before.unexplored@,
            Some(c) => match *c {
                Node::Branching(_, c1, c2, _) => r == Some(&*c1) && after.unexplored@
                    == before.unexplored@.push(&*c2),
                Node::Terminal(..) => {
                    &&& before.unexplored@.len() > 0 ==> r == Some(before.unexplored@.last())
                        && after.unexplored@ == before.unexplored@.drop_last()
                    &&& before.unexplored@.len() == 0 ==> r is None && after.unexplored@
                        == before.unexplored@
                },
            },
        },
    ensures
        walk_state_ok(after),
        pruned_pending(before).len() == 0 ==> r is None,
        pruned_pending(before).len() > 0 ==> {
            &&& r is Some
            &&& pruned_pending(before)[0] == *r.unwrap()
            &&& pruned_pending(after) == pruned_pending(before).drop_first()
        },
{
    let u = before.unexplored@;
    if before.skip_next_branch || (before.current matches Some(c) && c is Terminal) {
        if u.len() > 0 {
            lemma_pruned_first(*u.last());
            assert(pruned_pending(after) =~= pruned_pending(before).drop_first());
        } else {
            assert(pruned_pending(before) =~= Seq::<Node>::empty());
        }
    } else {
        match before.current {
            None => {
                lemma_pruned_first(*before.root_node);
                assert(pruned_stack_order(after.unexplored@) =~= Seq::<Node>::empty());
                assert(pruned_pending(after) =~= pruned_pending(before).drop_first());
            },
            Some(c) => {
                if let Node::Branching(_, c1, c2, _) = *c {
                    lemma_pruned_first(*c1);
                    assert(u.push(&*c2).drop_last() =~= u);
                    assert(pruned_pending(after) =~= pruned_pending(before).drop_first());
                }
            },
        }
    }
}

proof fn lemma_pruned_well_shaped(m: Node)
    requires
        well_shaped(m),
    ensures
        forall|k: int|
            0 <= k < pruned_preorder(m).len() ==> well_shaped(#[trigger] pruned_preorder(m)[k]),
    decreases m,
{
    if !is_variable_product(m) {
        if let Node::Branching(_, c1, c2, _) = m {
            lemma_pruned_well_shaped(*c1);
            lemma_pruned_well_shaped(*c2);
            let p = pruned_preorder(m);
            let p1 = pruned_preorder(*c1);
            let p2 = pruned_preorder(*c2);
            assert forall|k: int| 0 <= k < p.len() implies well_shaped(#[trigger] p[k]) by {
                if k == 0 {
                } else if k < 1 + p1.len() {
                    assert(p[k] == p1[k - 1]);
                } else {
                    assert(p[k] == p2[k - 1 - p1.len()]);
                }
            }
        }
    }
}

/// Whether, if `n` is a product of a constant and a variable, one of its operands is listed.
pub open spec fn product_listed(n: Node, variables: Seq<Node>) -> bool {
    match n {
        Node::Branching(_, c1, c2, _) => is_variable_product(n) ==> (first_listed(variables, *c1)
            is Some || first_listed(variables, *c2) is Some),
        Node::Terminal(..) => true,
    }
}

/// Whether, for every product of a constant and a variable that the pruned walk meets, one of
/// its two operands is listed.
pub open spec fn products_listed(root: Node, variables: Seq<Node>) -> bool {
    forall|k: int|
        0 <= k < pruned_preorder(root).len() ==> product_listed(
            #[trigger] pruned_preorder(root)[k],
            variables,
        )
}

/// Records one occurrence under the given variable.
pub open spec fn record(groups: Seq<Seq<usize>>, k: int, index: int) -> Seq<Seq<usize>> {
    groups.update(k, groups[k].push(index as usize))
}

/// The groups of occurrences after looking at one more node: a product of a constant and a
/// variable counts, under its variable, with the index of the product; any other node counts
/// with its own index if it is listed.
pub open spec fn group_step(groups: Seq<Seq<usize>>, n: Node, variables: Seq<Node>) -> Seq<
    Seq<usize>,
> {
    if is_variable_product(n) {
        match n {
            Node::Branching(_, c1, c2, _) => match first_listed(variables, *c1) {
                Some(k) => record(groups, k, (node_index(*c1) / 2) as int),
                None => record(
                    groups,
                    first_listed(variables, *c2).unwrap(),
                    (node_index(*c2) / 2) as int,
                ),
            },
            Node::Terminal(..) => groups,
        }
    } else {
        match first_listed(variables, n) {
            Some(k) => record(groups, k, node_index(n) as int),
            None => groups,
        }
    }
}

/// The groups of occurrences after looking at the nodes `ns` in order, starting from one
/// empty group per variable.
pub open spec fn groups_over(variables: Seq<Node>, ns: Seq<Node>) -> Seq<Seq<usize>>
    decreases ns.len(),
{
    if ns.len() == 0 {
        Seq::new(variables.len(), |i: int| Seq::<usize>::empty())
    } else {
        group_step(groups_over(variables, ns.drop_last()), ns.last(), variables)
    }
}

/// The views of a vector of vectors.
pub open spec fn nested_view(v: Seq<Vec<usize>>) -> Seq<Seq<usize>> {
    v.map_values(|x: Vec<usize>| x@)
}

proof fn lemma_group_step_len(groups: Seq<Seq<usize>>, n: Node, variables: Seq<Node>)
    requires
        groups.len() == variables.len(),
        product_listed(n, variables),
    ensures
        group_step(groups, n, variables).len() == variables.len(),
{
    lemma_first_listed_in_range(variables, n, 0);
    if let Node::Branching(_, c1, c2, _) = n {
        lemma_first_listed_in_range(variables, *c1, 0);
        lemma_first_listed_in_range(variables, *c2, 0);
    }
}

proof fn lemma_first_listed_in_range(list: Seq<Node>, n: Node, i: int)
    ensures
        first_listed_from(list, n, i) matches Some(k) ==> i <= k < list.len(),
    decreases list.len() - i,
{
    if 0 <= i < list.len() && !branch_equal(list[i], n) {
        lemma_first_listed_in_range(list, n, i + 1);
    }
}

/// Adds `index` to the group at position `k`.
fn push_to_group(groups: &mut Vec<Vec<usize>>, k: usize, index: usize)
    requires
        k < old(groups).len(),
    ensures
        nested_view(final(groups)@) == record(nested_view(old(groups)@), k as int, index as int),
{
    let mut group = groups.remove(k);
    group.push(index);
    groups.insert(k, group);
    assert(nested_view(groups@) =~= record(nested_view(old(groups)@), k as int, index as int));
}

/// Groups the occurrences of each listed variable in the tree, walking it in pre-order but not
/// below a product of a constant and a variable: such a product counts, under the listed
/// operand (the first operand if both are listed), with half that operand's index, and any
/// other listed node counts with its own index. Every product that the walk meets must have a
/// listed operand.
pub fn collect_variable_groups(root_node: &Node, variables: &Vec<Node>) -> (r: Vec<Vec<usize>>)
    requires
        well_shaped(*root_node),
        forall|j: int| 0 <= j < variables.len() ==> well_shaped(#[trigger] variables@[j]),
        products_listed(*root_node, variables@),
    ensures
        nested_view(r@) == groups_over(variables@, pruned_preorder(*root_node)),
{
    let groups = gather_variable_groups(root_node, variables);
    groups.unwrap()
}

/// Whether every product of a constant and a variable that the walk of
/// `collect_variable_groups` meets has a listed operand.
pub fn products_are_listed(root_node: &Node, variables: &Vec<Node>) -> (r: bool)
    requires
        well_shaped(*root_node),
        forall|j: int| 0 <= j < variables.len() ==> well_shaped(#[trigger] variables@[j]),
    ensures
        r == products_listed(*root_node, variables@),
{
    gather_variable_groups(root_node, variables).is_some()
}

/// The groups of `collect_variable_groups`, or None where the walk meets a product neither of
/// whose operands is listed.
fn gather_variable_groups(root_node: &Node, variables: &Vec<Node>) -> (r: Option<
    Vec<Vec<usize>>,
>)
    requires
        well_shaped(*root_node),
        forall|j: int| 0 <= j < variables.len() ==> well_shaped(#[trigger] variables@[j]),
    ensures
        r is Some <==> products_listed(*root_node, variables@),
        r matches Some(groups) ==> nested_view(groups@) == groups_over(
            variables@,
            pruned_preorder(*root_node),
        ),
{
    let mut tree_iterator = construct_tree_iterator(root_node);
    let mut result: Vec<Vec<usize>> = Vec::with_capacity(variables.len());
    let mut i: usize = 0;
    while i < variables.len()
        invariant
            i <= variables.len(),
            result@.len() == i,
            forall|j: int| 0 <= j < i ==> (#[trigger] result@[j])@.len() == 0,
        decreases variables.len() - i,
    {
        result.push(Vec::new());
        i = i + 1;
    }
    let ghost mut visited: Seq<Node> = Seq::empty();
    assert forall|j: int| 0 <= j < result@.len() implies nested_view(result@)[j] =~= Seq::<
        usize,
    >::empty() by {
        assert(result@[j]@.len() == 0);
    }
    assert(nested_view(result@) =~= groups_over(variables@, visited));
    proof {
        lemma_pruned_well_shaped(*root_node);
    }
    assert(visited + pruned_pending(tree_iterator) =~= pruned_preorder(*root_node));
    loop
        invariant
            well_shaped(*root_node),
            forall|j: int| 0 <= j < variables.len() ==> well_shaped(#[trigger] variables@[j]),
            forall|k: int|
                0 <= k < pruned_preorder(*root_node).len() ==> well_shaped(
                    #[trigger] pruned_preorder(*root_node)[k],
                ),
            tree_iterator.root_node == root_node,
            walk_state_ok(tree_iterator),
            tree_iterator.current matches Some(c) ==> (is_variable_product(*c)
                <==> tree_iterator.skip_next_branch),
            tree_iterator.current is None ==> !tree_iterator.skip_next_branch,
            visited + pruned_pending(tree_iterator) == pruned_preorder(*root_node),
            forall|k: int| 0 <= k < visited.len() ==> product_listed(#[trigger] visited[k], variables@),
            nested_view(result@) == groups_over(variables@, visited),
            result@.len() == variables@.len(),
        decreases pruned_pending(tree_iterator).len(),
    {
        let ghost before = tree_iterator;
        let next = tree_iterator.next();
        proof {
            lemma_next_yields_pruned(before, tree_iterator, next);
        }
        let node = match next {
            None => {
                assert(visited =~= pruned_preorder(*root_node));
                return Some(result);
            },
            Some(node) => node,
        };
        let ghost k = visited.len() as int;
        assert(pruned_preorder(*root_node)[k] == *node);
        let ghost old_visited = visited;
        proof {
            visited = visited.push(*node);
            assert(visited.drop_last() =~= old_visited);
            assert(visited + pruned_pending(tree_iterator) =~= old_visited + pruned_pending(before));
        }
        if is_node_variable_coefficient(node) {
            match node {
                Node::Branching(_, child1, child2, _) => {
                    let variable_index: usize;
                    let node_index: usize;
                    if let Some(index) = position_of(variables, child1) {
                        variable_index = index;
                        node_index = child1.index() / 2;
                    } else {
                        variable_index = match position_of(variables, child2) {
                            Some(index) => index,
                            None => {
                                assert(!product_listed(pruned_preorder(*root_node)[k], variables@));
                                return None;
                            },
                        };
                        node_index = child2.index() / 2;
                    }
                    proof {
                        lemma_first_listed_in_range(variables@, **child1, 0);
                        lemma_first_listed_in_range(variables@, **child2, 0);
                        lemma_group_step_len(nested_view(result@), *node, variables@);
                    }
                    push_to_group(&mut result, variable_index, node_index);
                    tree_iterator.skip_next_branch = true;
                },
                Node::Terminal(..) => {
                    proof {
                        assert(false);
                    }
                },
            }
        } else {
            proof {
                lemma_group_step_len(nested_view(result@), *node, variables@);
            }
            if let Some(index) = position_of(variables, node) {
                proof {
                    lemma_first_listed_in_range(variables@, *node, 0);
                }
                push_to_group(&mut result, index, node.index());
            }
        }
    }
}


proof fn lemma_first_listed_found(list: Seq<Node>, n: Node, i: int, j: int)
    requires
        0 <= i <= j < list.len(),
        branch_equal(list[j], n),
    ensures
        first_listed_from(list, n, i) is Some,
    decreases j - i,
{
    if !branch_equal(list[i], n) {
        lemma_first_listed_found(list, n, i + 1, j);
    }
}

/// Everything the pruned walk meets, the full walk meets too.
proof fn lemma_pruned_in_preorder(m: Node)
    ensures
        forall|k: int|
            0 <= k < pruned_preorder(m).len() ==> preorder(m).contains(
                #[trigger] pruned_preorder(m)[k],
            ),
    decreases m,
{
    let p = preorder(m);
    let q = pruned_preorder(m);
    assert(p[0] == m);
    if !is_variable_product(m) {
        if let Node::Branching(_, c1, c2, _) = m {
            lemma_pruned_in_preorder(*c1);
            lemma_pruned_in_preorder(*c2);
            let p1 = preorder(*c1);
            let p2 = preorder(*c2);
            let q1 = pruned_preorder(*c1);
            let q2 = pruned_preorder(*c2);
            assert forall|k: int| 0 <= k < q.len() implies p.contains(#[trigger] q[k]) by {
                if k == 0 {
                } else if k < 1 + q1.len() {
                    assert(q[k] == q1[k - 1]);
                    let j = choose|j: int| 0 <= j < p1.len() && p1[j] == q1[k - 1];
                    assert(p[1 + j] == p1[j]);
                } else {
                    assert(q[k] == q2[k - 1 - q1.len()]);
                    let j = choose|j: int| 0 <= j < p2.len() && p2[j] == q2[k - 1 - q1.len()];
                    assert(p[1 + p1.len() + j] == p2[j]);
                }
            }
        }
    }
}

/// The operands of a node that the full walk meets are met too.
proof fn lemma_children_in_preorder(m: Node, k: int)
    requires
        0 <= k < preorder(m).len(),
    ensures
        preorder(m)[k] matches Node::Branching(_, c1, c2, _) ==> preorder(m).contains(*c1)
            && preorder(m).contains(*c2),
    decreases m,
{
    let p = preorder(m);
    if let Node::Branching(_, c1, c2, _) = m {
        let p1 = preorder(*c1);
        let p2 = preorder(*c2);
        if k == 0 {
            assert(p[1] == p1[0]);
            assert(p[1 + p1.len() as int] == p2[0]);
        } else if k < 1 + p1.len() {
            assert(p[k] == p1[k - 1]);
            lemma_children_in_preorder(*c1, k - 1);
            if let Node::Branching(_, d1, d2, _) = p1[k - 1] {
                let j1 = choose|j: int| 0 <= j < p1.len() && p1[j] == *d1;
                let j2 = choose|j: int| 0 <= j < p1.len() && p1[j] == *d2;
                assert(p[1 + j1] == p1[j1]);
                assert(p[1 + j2] == p1[j2]);
            }
        } else {
            let kk = k - 1 - p1.len();
            assert(p[k] == p2[kk]);
            lemma_children_in_preorder(*c2, kk);
            if let Node::Branching(_, d1, d2, _) = p2[kk] {
                let j1 = choose|j: int| 0 <= j < p2.len() && p2[j] == *d1;
                let j2 = choose|j: int| 0 <= j < p2.len() && p2[j] == *d2;
                assert(p[1 + p1.len() + j1] == p2[j1]);
                assert(p[1 + p1.len() + j2] == p2[j2]);
            }
        }
    }
}

/// Looking at more nodes keeps what is listed listed, and lists every candidate it looks at.
proof fn lemma_unique_over_lists(root: Node, ns: Seq<Node>, x: Node)
    requires
        ns.contains(x),
        is_variable_candidate(root, x),
    ensures
        listed(unique_over(root, ns), x),
    decreases ns.len(),
{
    let prev = ns.drop_last();
    let acc = unique_over(root, prev);
    let r = unique_over(root, ns);
    if ns.last() == x {
        if !listed(acc, x) {
            lemma_branch_equal_reflexive(x);
            assert(r[r.len() - 1] == x);
        }
    } else {
        let j = choose|j: int| 0 <= j < ns.len() && ns[j] == x;
        assert(prev[j] == x);
        lemma_unique_over_lists(root, prev, x);
        let w = choose|w: int| 0 <= w < acc.len() && branch_equal(#[trigger] acc[w], x);
        assert(r[w] == acc[w]);
    }
}

/// The variables listed after looking at the nodes `ns` are distinct up to branch equality,
/// each a candidate met among `ns`, and every candidate met is branch-equal to one of them.
pub proof fn lemma_unique_over_characterized(root: Node, ns: Seq<Node>)
    ensures
        forall|i: int, j: int|
            0 <= i < j < unique_over(root, ns).len() ==> !branch_equal(
                #[trigger] unique_over(root, ns)[i],
                #[trigger] unique_over(root, ns)[j],
            ),
        forall|i: int|
            0 <= i < unique_over(root, ns).len() ==> ns.contains(
                #[trigger] unique_over(root, ns)[i],
            ) && is_variable_candidate(root, unique_over(root, ns)[i]),
        forall|x: Node| ns.contains(x) && is_variable_candidate(root, x) ==> #[trigger] listed(
            unique_over(root, ns),
            x,
        ),
    decreases ns.len(),
{
    if ns.len() > 0 {
        let prev = ns.drop_last();
        lemma_unique_over_characterized(root, prev);
        let acc = unique_over(root, prev);
        let r = unique_over(root, ns);
        let x = ns.last();
        assert forall|i: int| 0 <= i < r.len() implies ns.contains(#[trigger] r[i])
            && is_variable_candidate(root, r[i]) by {
            if i < acc.len() {
                assert(r[i] == acc[i]);
                let j = choose|j: int| 0 <= j < prev.len() && prev[j] == acc[i];
                assert(ns[j] == prev[j]);
            } else {
                assert(ns[ns.len() - 1] == x);
            }
        }
        assert forall|i: int, j: int| 0 <= i < j < r.len() implies !branch_equal(
            #[trigger] r[i],
            #[trigger] r[j],
        ) by {
            if j < acc.len() {
                assert(r[i] == acc[i] && r[j] == acc[j]);
            } else {
                assert(r[i] == acc[i]);
            }
        }
        assert forall|y: Node| ns.contains(y) && is_variable_candidate(root, y) implies #[trigger] listed(
            r,
            y,
        ) by {
            lemma_unique_over_lists(root, ns, y);
        }
    }
}

/// The variables that `find_unique_variables` finds cover every product of a constant and a
/// variable in the tree: so `collect_variable_groups` succeeds on them.
pub proof fn lemma_found_variables_cover_products(root: Node)
    requires
        searchable(root),
    ensures
        products_listed(root, unique_over(root, preorder(root))),
{
    let vars = unique_over(root, preorder(root));
    let p = preorder(root);
    let q = pruned_preorder(root);
    lemma_preorder_located(root, root);
    lemma_pruned_in_preorder(root);
    assert forall|k: int| 0 <= k < q.len() implies product_listed(#[trigger] q[k], vars) by {
        let n = q[k];
        if let Node::Branching(t, c1, c2, i) = n {
            if is_variable_product(n) {
                let kn = choose|j: int| 0 <= j < p.len() && p[j] == n;
                lemma_children_in_preorder(root, kn);
                assert(node_at(root, node_index(p[kn]) as nat) == Some(n));
                assert(consistently_indexed(n));
                assert(well_shaped(n));
                let v = if check_holds(NodeCheck::IsVariable, *c1) || check_holds(
                    NodeCheck::IsVariableExponent,
                    *c1,
                ) {
                    *c1
                } else {
                    *c2
                };
                assert(check_holds(NodeCheck::IsVariable, v) || check_holds(
                    NodeCheck::IsVariableExponent,
                    v,
                ));
                if let Node::Terminal(vt, vi) = v {
                    assert(vi / 2 == i);
                    assert(seq!['*'][0] != seq!['^'][0]);
                    assert(is_variable_candidate(root, v));
                } else {
                    assert(is_variable_candidate(root, v));
                }
                lemma_unique_over_lists(root, p, v);
                let w = choose|w: int| 0 <= w < vars.len() && branch_equal(#[trigger] vars[w], v);
                lemma_first_listed_found(vars, v, 0, w);
            }
        }
    }
}

/// Whether position `m` of the list holds the first node that is branch-equal to `n`.
pub open spec fn first_equal_at(list: Seq<Node>, n: Node, m: int) -> bool {
    &&& 0 <= m < list.len()
    &&& branch_equal(list[m], n)
    &&& forall|j: int| 0 <= j < m ==> !branch_equal(#[trigger] list[j], n)
}

proof fn lemma_first_listed_is_first(list: Seq<Node>, n: Node, m: int, i: int)
    requires
        first_equal_at(list, n, m),
        0 <= i <= m,
    ensures
        first_listed_from(list, n, i) == Some(m),
    decreases m - i,
{
    if i < m {
        assert(!branch_equal(list[i], n));
        lemma_first_listed_is_first(list, n, m, i + 1);
    }
}

proof fn lemma_first_listed_none(list: Seq<Node>, n: Node, i: int)
    requires
        0 <= i,
        forall|j: int| 0 <= j < list.len() ==> !branch_equal(#[trigger] list[j], n),
    ensures
        first_listed_from(list, n, i) is None,
    decreases list.len() - i,
{
    if i < list.len() {
        assert(!branch_equal(list[i], n));
        lemma_first_listed_none(list, n, i + 1);
    }
}

/// Whether the groups record, for the node `n` met on the walk, what the walk owes it: a
/// product of a constant and a variable, half the index of its first operand under the first
/// variable equal to that operand, or, where no variable is equal to it, half the index of its
/// second operand under the first variable equal to that one; any other node equal to a
/// variable, its own index under the first such variable.
pub open spec fn occurrence_recorded(groups: Seq<Seq<usize>>, variables: Seq<Node>, n: Node) -> bool {
    &&& !is_variable_product(n) ==> forall|m: int|
        #[trigger] first_equal_at(variables, n, m) ==> groups[m].contains(node_index(n))
    &&& is_variable_product(n) ==> match n {
        Node::Branching(_, c1, c2, _) => {
            &&& forall|m: int|
                #[trigger] first_equal_at(variables, *c1, m) ==> groups[m].contains(
                    (node_index(*c1) / 2) as usize,
                )
            &&& (forall|j: int| 0 <= j < variables.len() ==> !branch_equal(#[trigger] variables[j], *c1))
                ==> forall|m: int|
                #[trigger] first_equal_at(variables, *c2, m) ==> groups[m].contains(
                    (node_index(*c2) / 2) as usize,
                )
        },
        Node::Terminal(..) => true,
    }
}

proof fn lemma_record_keeps(groups: Seq<Seq<usize>>, k: int, index: int, m: int, x: usize)
    requires
        0 <= k < groups.len(),
        0 <= m < groups.len(),
        groups[m].contains(x),
    ensures
        record(groups, k, index)[m].contains(x),
{
    let j = choose|j: int| 0 <= j < groups[m].len() && groups[m][j] == x;
    assert(record(groups, k, index)[m][j] == x);
}

proof fn lemma_step_keeps(groups: Seq<Seq<usize>>, n: Node, variables: Seq<Node>, m: int, x: usize)
    requires
        groups.len() == variables.len(),
        product_listed(n, variables),
        0 <= m < groups.len(),
        groups[m].contains(x),
    ensures
        group_step(groups, n, variables)[m].contains(x),
{
    lemma_first_listed_in_range(variables, n, 0);
    if let Node::Branching(_, c1, c2, _) = n {
        lemma_first_listed_in_range(variables, *c1, 0);
        lemma_first_listed_in_range(variables, *c2, 0);
        if is_variable_product(n) {
            match first_listed(variables, *c1) {
                Some(k) => lemma_record_keeps(groups, k, (node_index(*c1) / 2) as int, m, x),
                None => lemma_record_keeps(
                    groups,
                    first_listed(variables, *c2).unwrap(),
                    (node_index(*c2) / 2) as int,
                    m,
                    x,
                ),
            }
            return;
        }
    }
    if let Some(k) = first_listed(variables, n) {
        lemma_record_keeps(groups, k, node_index(n) as int, m, x);
    }
}

proof fn lemma_recorded_last(groups: Seq<Seq<usize>>, record_at: int, index: int)
    requires
        0 <= record_at < groups.len(),
        0 <= index <= usize::MAX,
    ensures
        record(groups, record_at, index)[record_at].contains(index as usize),
{
    let g = record(groups, record_at, index);
    assert(g[record_at][groups[record_at].len() as int] == index as usize);
}

proof fn lemma_step_records(groups: Seq<Seq<usize>>, n: Node, variables: Seq<Node>)
    requires
        groups.len() == variables.len(),
        product_listed(n, variables),
    ensures
        occurrence_recorded(group_step(groups, n, variables), variables, n),
{
    let g = group_step(groups, n, variables);
    if !is_variable_product(n) {
        assert forall|m: int| #[trigger] first_equal_at(variables, n, m) implies g[m].contains(
            node_index(n),
        ) by {
            lemma_first_listed_is_first(variables, n, m, 0);
            lemma_recorded_last(groups, m, node_index(n) as int);
        }
    } else if let Node::Branching(_, c1, c2, _) = n {
        assert forall|m: int| #[trigger] first_equal_at(variables, *c1, m) implies g[m].contains(
            (node_index(*c1) / 2) as usize,
        ) by {
            lemma_first_listed_is_first(variables, *c1, m, 0);
            lemma_recorded_last(groups, m, (node_index(*c1) / 2) as int);
        }
        if forall|j: int| 0 <= j < variables.len() ==> !branch_equal(#[trigger] variables[j], *c1) {
            lemma_first_listed_none(variables, *c1, 0);
            assert forall|m: int| #[trigger] first_equal_at(variables, *c2, m) implies g[m].contains(
                (node_index(*c2) / 2) as usize,
            ) by {
                lemma_first_listed_is_first(variables, *c2, m, 0);
                lemma_recorded_last(groups, m, (node_index(*c2) / 2) as int);
            }
        }
    }
}

proof fn lemma_recorded_kept(groups: Seq<Seq<usize>>, variables: Seq<Node>, n: Node, o: Node)
    requires
        groups.len() == variables.len(),
        product_listed(n, variables),
        occurrence_recorded(groups, variables, o),
    ensures
        occurrence_recorded(group_step(groups, n, variables), variables, o),
{
    let g = group_step(groups, n, variables);
    if !is_variable_product(o) {
        assert forall|m: int| #[trigger] first_equal_at(variables, o, m) implies g[m].contains(
            node_index(o),
        ) by {
            lemma_step_keeps(groups, n, variables, m, node_index(o));
        }
    } else if let Node::Branching(_, c1, c2, _) = o {
        assert forall|m: int| #[trigger] first_equal_at(variables, *c1, m) implies g[m].contains(
            (node_index(*c1) / 2) as usize,
        ) by {
            lemma_step_keeps(groups, n, variables, m, (node_index(*c1) / 2) as usize);
        }
        if forall|j: int| 0 <= j < variables.len() ==> !branch_equal(#[trigger] variables[j], *c1) {
            assert forall|m: int| #[trigger] first_equal_at(variables, *c2, m) implies g[m].contains(
                (node_index(*c2) / 2) as usize,
            ) by {
                lemma_step_keeps(groups, n, variables, m, (node_index(*c2) / 2) as usize);
            }
        }
    }
}

proof fn lemma_groups_over_records(variables: Seq<Node>, ns: Seq<Node>)
    requires
        forall|k: int| 0 <= k < ns.len() ==> product_listed(#[trigger] ns[k], variables),
    ensures
        groups_over(variables, ns).len() == variables.len(),
        forall|k: int|
            0 <= k < ns.len() ==> occurrence_recorded(
                groups_over(variables, ns),
                variables,
                #[trigger] ns[k],
            ),
    decreases ns.len(),
{
    if ns.len() > 0 {
        let prev = ns.drop_last();
        assert forall|k: int| 0 <= k < prev.len() implies product_listed(
            #[trigger] prev[k],
            variables,
        ) by {
            assert(prev[k] == ns[k]);
        }
        lemma_groups_over_records(variables, prev);
        let g = groups_over(variables, prev);
        assert(product_listed(ns.last(), variables));
        lemma_group_step_len(g, ns.last(), variables);
        lemma_step_records(g, ns.last(), variables);
        assert forall|k: int| 0 <= k < ns.len() implies occurrence_recorded(
            groups_over(variables, ns),
            variables,
            #[trigger] ns[k],
        ) by {
            if k < ns.len() - 1 {
                assert(ns[k] == prev[k]);
                lemma_recorded_kept(g, variables, ns.last(), ns[k]);
            }
        }
    } else {
        assert(groups_over(variables, ns).len() == variables.len());
    }
}

/// Every occurrence that the walk of `collect_variable_groups` meets is recorded, under the
/// first variable equal to it: a node other than a product of a constant and a variable that
/// is equal to a variable with its own index, and such a product with half the index of the
/// operand that is equal to a variable (the first operand where both are).
pub proof fn lemma_groups_record_every_occurrence(root: Node, variables: Seq<Node>)
    requires
        products_listed(root, variables),
    ensures
        groups_over(variables, pruned_preorder(root)).len() == variables.len(),
        forall|k: int|
            0 <= k < pruned_preorder(root).len() ==> occurrence_recorded(
                groups_over(variables, pruned_preorder(root)),
                variables,
                #[trigger] pruned_preorder(root)[k],
            ),
{
    lemma_groups_over_records(variables, pruned_preorder(root));
}

} // verus!
