//! Ways up a tree that is given by its parent links, and how many rollouts
//! took them.
use crate::links::well_linked;
use vstd::prelude::*;

verus! {

/// Whether node `i` lies on the way from node `from` up to the root, both
/// ends included, in a tree with these parent links.
pub open spec fn on_path(parents: Seq<int>, from: int, i: int) -> bool
    decreases from,
{
    if from < 0 || from >= parents.len() {
        false
    } else if from == i {
        true
    } else if 0 <= parents[from] < from {
        on_path(parents, parents[from], i)
    } else {
        false
    }
}

/// How many of the rollouts that began at the nodes `starts` passed through
/// node `i`, in a tree with these parent links.
pub open spec fn passes(parents: Seq<int>, starts: Seq<int>, i: int) -> nat
    decreases starts.len(),
{
    if starts.len() == 0 {
        0
    } else {
        passes(parents, starts.drop_last(), i) + if on_path(parents, starts.last(), i) {
            1nat
        } else {
            0nat
        }
    }
}

/// A node on the way up from `from` is `from` itself or was created before
/// it.
pub proof fn lemma_on_path_is_below(parents: Seq<int>, from: int, i: int)
    requires
        on_path(parents, from, i),
    ensures
        0 <= i <= from < parents.len(),
    decreases from,
{
    if from != i {
        lemma_on_path_is_below(parents, parents[from], i);
    }
}

/// With a node other than the root, its parent is on the way up too.
pub proof fn lemma_on_path_goes_up(parents: Seq<int>, from: int, i: int)
    requires
        on_path(parents, from, i),
        0 <= i < parents.len(),
        0 <= parents[i] < i,
    ensures
        on_path(parents, from, parents[i]),
    decreases from,
{
    if from != i {
        lemma_on_path_goes_up(parents, parents[from], i);
    } else {
        assert(on_path(parents, parents[i], parents[i]));
    }
}

/// The root is on the way up from every node.
pub proof fn lemma_root_is_on_path(parents: Seq<int>, children: Seq<Seq<int>>, from: int)
    requires
        well_linked(parents, children),
        0 <= from < parents.len(),
    ensures
        on_path(parents, from, 0),
    decreases from,
{
    if from != 0 {
        lemma_root_is_on_path(parents, children, parents[from]);
    }
}

/// A node that is appended lies on no way up from an older node, and the
/// older ways stay as they were.
pub proof fn lemma_on_path_is_kept(parents: Seq<int>, parent: int, from: int, i: int)
    requires
        0 <= from < parents.len(),
    ensures
        on_path(parents.push(parent), from, i) == on_path(parents, from, i),
    decreases from,
{
    if from != i && 0 <= parents[from] < from {
        lemma_on_path_is_kept(parents, parent, parents[from], i);
    }
}

/// Appending a node changes no count of earlier rollouts.
pub proof fn lemma_passes_are_kept(parents: Seq<int>, parent: int, starts: Seq<int>, i: int)
    requires
        forall|k: int| 0 <= k < starts.len() ==> 0 <= #[trigger] starts[k] < parents.len(),
    ensures
        passes(parents.push(parent), starts, i) == passes(parents, starts, i),
    decreases starts.len(),
{
    if starts.len() > 0 {
        lemma_passes_are_kept(parents, parent, starts.drop_last(), i);
        lemma_on_path_is_kept(parents, parent, starts.last(), i);
    }
}

/// No rollout has passed through a node that is younger than every node at
/// which a rollout began.
pub proof fn lemma_passes_none(parents: Seq<int>, starts: Seq<int>, i: int)
    requires
        forall|k: int| 0 <= k < starts.len() ==> #[trigger] starts[k] < i,
    ensures
        passes(parents, starts, i) == 0,
    decreases starts.len(),
{
    if starts.len() > 0 {
        lemma_passes_none(parents, starts.drop_last(), i);
        if on_path(parents, starts.last(), i) {
            lemma_on_path_is_below(parents, starts.last(), i);
        }
    }
}

/// Every rollout passed through the root.
pub proof fn lemma_passes_root(parents: Seq<int>, children: Seq<Seq<int>>, starts: Seq<int>)
    requires
        well_linked(parents, children),
        forall|k: int| 0 <= k < starts.len() ==> 0 <= #[trigger] starts[k] < parents.len(),
    ensures
        passes(parents, starts, 0) == starts.len(),
    decreases starts.len(),
{
    if starts.len() > 0 {
        lemma_passes_root(parents, children, starts.drop_last());
        lemma_root_is_on_path(parents, children, starts.last());
    }
}

} // verus!
