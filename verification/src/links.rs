//! The shape of the search tree.
//!
//! The parent and child links are kept by an `ego_tree::Tree`. Each node of
//! that tree holds one `usize`: the slot of the engine's node store that
//! carries the node's game and statistics. The functions marked
//! `external_body` below are the only places where `ego_tree` is called;
//! Verus takes their contracts on trust. Everything else in this module is
//! proved from those contracts.
use ego_tree::{NodeId, Tree};
use vstd::prelude::*;

verus! {

#[verifier::external_type_specification]
#[verifier::external_body]
#[verifier::reject_recursive_types(T)]
pub struct ExTree<T>(Tree<T>);

#[verifier::external_type_specification]
#[verifier::external_body]
pub struct ExNodeId(NodeId);

/// The position of the node that `id` names, counted from 0 in the order in
/// which a tree's nodes were created. `ego_tree` documents a `NodeId` as the
/// index into the tree's internal vector.
pub uninterp spec fn node_index(id: NodeId) -> nat;

/// The value held by each node of `tree`, in creation order (what
/// `Tree::values` walks).
pub uninterp spec fn tree_values(tree: Tree<usize>) -> Seq<usize>;

/// For each node of `tree`, in creation order, the position of its parent,
/// or -1 for a node without one.
pub uninterp spec fn tree_parents(tree: Tree<usize>) -> Seq<int>;

/// For each node of `tree`, in creation order, the positions of its children
/// from first to last (what `NodeRef::children` walks).
pub uninterp spec fn tree_children(tree: Tree<usize>) -> Seq<Seq<int>>;

/// `id` names a node of `tree`.
pub open spec fn in_tree(tree: Tree<usize>, id: NodeId) -> bool {
    node_index(id) < tree_values(tree).len()
}

/// `ego_tree::Tree::new`: a tree of one node, the root, which holds `root`
/// and has neither parent nor children.
#[verifier::external_body]
pub(crate) fn tree_new(root: usize) -> (tree: Tree<usize>)
    ensures
        tree_values(tree) == seq![root],
        tree_parents(tree) == seq![-1int],
        tree_children(tree) == seq![Seq::<int>::empty()],
{
    Tree::new(root)
}

/// `ego_tree::Tree::root`, then `NodeRef::id`: the root is the node at
/// position 0.
#[verifier::external_body]
pub(crate) fn tree_root(tree: &Tree<usize>) -> (id: NodeId)
    ensures
        node_index(id) == 0,
{
    tree.root().id()
}

/// `ego_tree::NodeRef::value` on the node that `Tree::get` finds: the value
/// held at that position. `Tree::get` finds a node for every position below
/// the number of nodes.
#[verifier::external_body]
pub(crate) fn tree_value(tree: &Tree<usize>, id: NodeId) -> (value: usize)
    requires
        in_tree(*tree, id),
    ensures
        value == tree_values(*tree)[node_index(id) as int],
{
    *tree.get(id).unwrap().value()
}

/// `ego_tree::NodeRef::parent`: the node's parent, if it has one.
#[verifier::external_body]
pub(crate) fn tree_parent(tree: &Tree<usize>, id: NodeId) -> (parent: Option<NodeId>)
    requires
        in_tree(*tree, id),
    ensures
        (match parent {
            Some(p) => node_index(p) == tree_parents(*tree)[node_index(id) as int],
            None => tree_parents(*tree)[node_index(id) as int] == -1,
        }),
{
    tree.get(id).unwrap().parent().map(|p| p.id())
}

/// `ego_tree::NodeRef::has_children`: whether the node has any child.
#[verifier::external_body]
pub(crate) fn tree_has_children(tree: &Tree<usize>, id: NodeId) -> (has: bool)
    requires
        in_tree(*tree, id),
    ensures
        has == (tree_children(*tree)[node_index(id) as int].len() > 0),
{
    tree.get(id).unwrap().has_children()
}

/// `ego_tree::NodeRef::first_child`: the first of the node's children, if it
/// has any.
#[verifier::external_body]
pub(crate) fn tree_first_child(tree: &Tree<usize>, id: NodeId) -> (child: Option<NodeId>)
    requires
        in_tree(*tree, id),
    ensures
        (match child {
            Some(c) => tree_children(*tree)[node_index(id) as int].len() > 0 && node_index(c)
                == tree_children(*tree)[node_index(id) as int][0],
            None => tree_children(*tree)[node_index(id) as int].len() == 0,
        }),
{
    tree.get(id).unwrap().first_child().map(|c| c.id())
}

/// `ego_tree::NodeRef::next_sibling`: wherever the node stands in a list of
/// children, the result is the node that follows it there, or `None` if it
/// is the last.
#[verifier::external_body]
pub(crate) fn tree_next_sibling(tree: &Tree<usize>, id: NodeId) -> (next: Option<NodeId>)
    requires
        in_tree(*tree, id),
    ensures
        forall|p: int, k: int|
            0 <= p < tree_children(*tree).len() && 0 <= k < tree_children(*tree)[p].len()
                && #[trigger] tree_children(*tree)[p][k] == node_index(id) ==> (match next {
                Some(s) => k + 1 < tree_children(*tree)[p].len() && node_index(s)
                    == tree_children(*tree)[p][k + 1],
                None => k + 1 == tree_children(*tree)[p].len(),
            }),
{
    tree.get(id).unwrap().next_sibling().map(|s| s.id())
}

/// `ego_tree::NodeMut::append` on the node that `Tree::get_mut` finds: a new
/// node holding `value` is created at the next free position and becomes the
/// last child of `parent`. No other link and no other value changes.
#[verifier::external_body]
pub(crate) fn tree_append(tree: &mut Tree<usize>, parent: NodeId, value: usize) -> (child: NodeId)
    requires
        in_tree(*old(tree), parent),
    ensures
        node_index(child) == tree_values(*old(tree)).len(),
        tree_values(*final(tree)) == tree_values(*old(tree)).push(value),
        tree_parents(*final(tree)) == tree_parents(*old(tree)).push(node_index(parent) as int),
        tree_children(*final(tree)) == tree_children(*old(tree)).update(
            node_index(parent) as int,
            tree_children(*old(tree))[node_index(parent) as int].push(
                tree_values(*old(tree)).len() as int,
            ),
        ).push(Seq::<int>::empty()),
{
    tree.get_mut(parent).unwrap().append(value).id()
}

/// Parent links and lists of children that describe one rooted tree whose
/// nodes are numbered in the order of their creation: the root alone has no
/// parent, every other node comes after its parent, and a node's children
/// are nodes that name it as their parent.
pub open spec fn well_linked(parents: Seq<int>, children: Seq<Seq<int>>) -> bool {
    &&& parents.len() >= 1
    &&& children.len() == parents.len()
    &&& parents[0] == -1
    &&& forall|i: int| 1 <= i < parents.len() ==> 0 <= #[trigger] parents[i] < i
    &&& forall|p: int, k: int|
        0 <= p < children.len() && 0 <= k < children[p].len() ==> p < #[trigger] children[p][k]
            < parents.len() && parents[children[p][k]] == p
}

/// Node `i` of `tree` holds the value `i`.
pub open spec fn numbered(tree: Tree<usize>) -> bool {
    forall|i: int| 0 <= i < tree_values(tree).len() ==> #[trigger] tree_values(tree)[i] == i
}

/// The links after a node was appended under `parent`.
pub open spec fn grown(parents: Seq<int>, children: Seq<Seq<int>>, parent: int) -> (Seq<int>, Seq<Seq<int>>) {
    (
        parents.push(parent),
        children.update(parent, children[parent].push(parents.len() as int)).push(
            Seq::<int>::empty(),
        ),
    )
}

/// Appending a node under an existing one keeps the links well formed.
pub proof fn lemma_grown_is_well_linked(parents: Seq<int>, children: Seq<Seq<int>>, parent: int)
    requires
        well_linked(parents, children),
        0 <= parent < parents.len(),
    ensures
        well_linked(grown(parents, children, parent).0, grown(parents, children, parent).1),
{
    let n = parents.len() as int;
    let (after_parents, after_children) = grown(parents, children, parent);
    assert forall|p: int, k: int|
        0 <= p < after_children.len() && 0 <= k < after_children[p].len() implies p
        < #[trigger] after_children[p][k] < n + 1 && after_parents[after_children[p][k]] == p by {
        if p == n {
        } else if p == parent {
            if k < children[p].len() {
                assert(after_children[p][k] == children[p][k]);
            }
        } else {
            assert(after_children[p][k] == children[p][k]);
        }
    }
}

} // verus!
