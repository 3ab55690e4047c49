//! Marking a node and everything below it as deleted.

use crate::events::{EventType, EventView};
use crate::path::{is_below, lemma_below_transitive, lemma_parent_is_above};
use crate::tree::model::{lemma_with_metas, TreeView};
use crate::tree::{NodeId, NodeMeta};
use vstd::prelude::*;

verus! {

/// One `Delete` for `path`.
pub open spec fn delete_of(path: Seq<u8>) -> EventView {
    EventView { path, ty: EventType::Delete }
}

/// Walks the children of node `n` from its `k`th child on, and below every
/// child that is a directory with a list of its own. Every child met is
/// marked as deleted, and for every file among them a `Delete` is given.
/// When the children of a node are done the node itself is marked. Gives
/// what the nodes remember afterwards, the events in the order of the walk,
/// and the number of steps taken.
pub open spec fn sweep(tree: TreeView, metas: Seq<NodeMeta>, n: int, k: int) -> (
    Seq<NodeMeta>,
    Seq<EventView>,
    nat,
)
    decreases tree.nodes.len() - n, tree.children_of(n).len() - k,
{
    let list = tree.children_of(n);
    if n < 0 || n >= tree.nodes.len() || k < 0 {
        (metas, Seq::empty(), 0)
    } else if k >= list.len() {
        (metas.update(n, NodeMeta::Deleted), Seq::empty(), 1)
    } else {
        let child = list[k].0 as int;
        if child <= n || child >= tree.nodes.len() {
            (metas, Seq::empty(), 0)
        } else {
            let own = if metas[child] is File {
                seq![delete_of(tree.nodes[child].path)]
            } else {
                Seq::empty()
            };
            let marked = metas.update(child, NodeMeta::Deleted);
            if metas[child] is Dir && tree.nodes[child].children.present() {
                let below = sweep(tree, marked, child, 0);
                let rest = sweep(tree, below.0, n, k + 1);
                (rest.0, own + below.1 + rest.1, 1 + below.2 + rest.2)
            } else {
                let rest = sweep(tree, marked, n, k + 1);
                (rest.0, own + rest.1, 1 + rest.2)
            }
        }
    }
}

/// What is left to do of a walk that stands at `frames`: the innermost
/// frame is finished first, then the one around it, and so on.
pub open spec fn finish(tree: TreeView, metas: Seq<NodeMeta>, frames: Seq<(NodeId, usize)>) -> (
    Seq<NodeMeta>,
    Seq<EventView>,
    nat,
)
    decreases frames.len(),
{
    if frames.len() == 0 {
        (metas, Seq::empty(), 0)
    } else {
        let inner = sweep(tree, metas, frames.last().0.0 as int, frames.last().1 as int);
        let outer = finish(tree, inner.0, frames.drop_last());
        (outer.0, inner.1 + outer.1, inner.2 + outer.2)
    }
}

/// What the nodes remember after the node at `n` and everything below it
/// has been marked as deleted, and the `Delete` events that go with it: one
/// for every file below the node.
pub open spec fn swept(tree: TreeView, metas: Seq<NodeMeta>, n: int) -> (
    Seq<NodeMeta>,
    Seq<EventView>,
) {
    let marked = metas.update(n, NodeMeta::Deleted);
    if tree.nodes[n].children.absent() {
        (marked, Seq::empty())
    } else {
        let walked = sweep(tree, marked, n, 0);
        (walked.0, walked.1)
    }
}

/// The tree after the node at `n` and everything below it has been marked
/// as deleted, and the `Delete` events that go with it.
pub open spec fn deleted(tree: TreeView, n: int) -> (TreeView, Seq<EventView>) {
    let result = swept(tree, tree.metas(), n);
    (tree.with_metas(result.0), result.1)
}

/// A walk keeps the number of nodes.
pub proof fn lemma_sweep_len(tree: TreeView, metas: Seq<NodeMeta>, n: int, k: int)
    requires
        metas.len() == tree.nodes.len(),
    ensures
        sweep(tree, metas, n, k).0.len() == metas.len(),
    decreases tree.nodes.len() - n, tree.children_of(n).len() - k,
{
    let list = tree.children_of(n);
    if n < 0 || n >= tree.nodes.len() || k < 0 {
    } else if k >= list.len() {
    } else {
        let child = list[k].0 as int;
        if child <= n || child >= tree.nodes.len() {
        } else {
            let marked = metas.update(child, NodeMeta::Deleted);
            if metas[child] is Dir && tree.nodes[child].children.present() {
                lemma_sweep_len(tree, marked, child, 0);
                lemma_sweep_len(tree, sweep(tree, marked, child, 0).0, n, k + 1);
            } else {
                lemma_sweep_len(tree, marked, n, k + 1);
            }
        }
    }
}

/// A frame of a walk stands at a node with a child list, at or before the
/// end of that list.
pub open spec fn frame_ok(tree: TreeView, frame: (NodeId, usize)) -> bool {
    &&& frame.0.0 < tree.nodes.len()
    &&& tree.nodes[frame.0.0 as int].children.present()
    &&& frame.1 <= tree.children_of(frame.0.0 as int).len()
}

/// A walk reads the shape of the tree only: its paths and child lists.
pub proof fn lemma_sweep_shape(tree: TreeView, other: TreeView, metas: Seq<NodeMeta>, n: int, k: int)
    requires
        tree.same_shape(other),
    ensures
        sweep(tree, metas, n, k) == sweep(other, metas, n, k),
    decreases tree.nodes.len() - n, tree.children_of(n).len() - k,
{
    if n < 0 || n >= tree.nodes.len() || k < 0 {
    } else {
        assert(tree.nodes[n].children == other.nodes[n].children);
        let list = tree.children_of(n);
        assert(other.children_of(n) == list);
        if k >= list.len() {
        } else {
            let child = list[k].0 as int;
            if child <= n || child >= tree.nodes.len() {
            } else {
                assert(tree.nodes[child].path == other.nodes[child].path);
                assert(tree.nodes[child].children == other.nodes[child].children);
                let marked = metas.update(child, NodeMeta::Deleted);
                if metas[child] is Dir && tree.nodes[child].children.present() {
                    lemma_sweep_shape(tree, other, marked, child, 0);
                    lemma_sweep_shape(tree, other, sweep(tree, marked, child, 0).0, n, k + 1);
                } else {
                    lemma_sweep_shape(tree, other, marked, n, k + 1);
                }
            }
        }
    }
}

/// Marking a node and what lies below it keeps the number of nodes.
pub proof fn lemma_swept_len(tree: TreeView, metas: Seq<NodeMeta>, n: int)
    requires
        metas.len() == tree.nodes.len(),
        0 <= n < tree.nodes.len(),
    ensures
        swept(tree, metas, n).0.len() == metas.len(),
{
    lemma_sweep_len(tree, metas.update(n, NodeMeta::Deleted), n, 0);
}

/// A walk leaves every node that was marked as deleted marked so.
pub proof fn lemma_sweep_marks(tree: TreeView, metas: Seq<NodeMeta>, n: int, k: int, at: int)
    requires
        metas.len() == tree.nodes.len(),
        0 <= at < metas.len(),
        metas[at] is Deleted,
    ensures
        sweep(tree, metas, n, k).0[at] is Deleted,
    decreases tree.nodes.len() - n, tree.children_of(n).len() - k,
{
    let list = tree.children_of(n);
    if n < 0 || n >= tree.nodes.len() || k < 0 {
    } else if k >= list.len() {
    } else {
        let child = list[k].0 as int;
        if child <= n || child >= tree.nodes.len() {
        } else {
            let marked = metas.update(child, NodeMeta::Deleted);
            if metas[child] is Dir && tree.nodes[child].children.present() {
                lemma_sweep_marks(tree, marked, child, 0, at);
                lemma_sweep_len(tree, marked, child, 0);
                lemma_sweep_marks(tree, sweep(tree, marked, child, 0).0, n, k + 1, at);
            } else {
                lemma_sweep_marks(tree, marked, n, k + 1, at);
            }
        }
    }
}

/// After a node and what lies below it were marked as deleted, the node is
/// marked so.
pub proof fn lemma_swept_marks(tree: TreeView, metas: Seq<NodeMeta>, n: int)
    requires
        metas.len() == tree.nodes.len(),
        0 <= n < tree.nodes.len(),
    ensures
        swept(tree, metas, n).0[n] is Deleted,
        swept(tree, metas, n).0.len() == metas.len(),
{
    lemma_swept_len(tree, metas, n);
    lemma_sweep_marks(tree, metas.update(n, NodeMeta::Deleted), n, 0, n);
}

/// A walk below a node touches nothing but what lies below that node: a
/// node that does not remember what it did is marked as deleted and is
/// the node itself or lies below it, and every event is a `Delete` of a
/// path below the node.
pub proof fn lemma_sweep_stays_below(tree: TreeView, metas: Seq<NodeMeta>, n: int, k: int)
    requires
        tree.well_formed(),
        metas.len() == tree.nodes.len(),
        0 <= n < tree.nodes.len(),
    ensures
        forall|i: int|
            0 <= i < metas.len() && #[trigger] sweep(tree, metas, n, k).0[i] != metas[i] ==> sweep(
                tree,
                metas,
                n,
                k,
            ).0[i] is Deleted && (i == n || is_below(tree.nodes[i].path, tree.nodes[n].path)),
        forall|e: int|
            0 <= e < sweep(tree, metas, n, k).1.len() ==> (#[trigger] sweep(
                tree,
                metas,
                n,
                k,
            ).1[e]).ty == EventType::Delete && is_below(
                sweep(tree, metas, n, k).1[e].path,
                tree.nodes[n].path,
            ),
    decreases tree.nodes.len() - n, tree.children_of(n).len() - k,
{
    let list = tree.children_of(n);
    if k < 0 || k >= list.len() {
    } else {
        let child = list[k].0 as int;
        assert(tree.nodes[n].children.absent() || tree.nodes[n].children.0 < tree.dirs.len());
        assert(tree.dirs[tree.nodes[n].children.0 as int][k].0 < tree.nodes.len());
        assert(tree.children_of(n)[k].0 > n);
        let here = tree.nodes[n].path;
        let there = tree.nodes[child].path;
        lemma_parent_is_above(there, here);
        let marked = metas.update(child, NodeMeta::Deleted);
        let own = if metas[child] is File {
            seq![delete_of(there)]
        } else {
            Seq::<EventView>::empty()
        };
        if metas[child] is Dir && tree.nodes[child].children.present() {
            let below = sweep(tree, marked, child, 0);
            let rest = sweep(tree, below.0, n, k + 1);
            lemma_sweep_stays_below(tree, marked, child, 0);
            lemma_sweep_len(tree, marked, child, 0);
            lemma_sweep_stays_below(tree, below.0, n, k + 1);
            let done = sweep(tree, metas, n, k);
            assert(done == (rest.0, own + below.1 + rest.1, 1 + below.2 + rest.2));
            assert forall|i: int| 0 <= i < metas.len() && #[trigger] done.0[i]
                != metas[i] implies done.0[i] is Deleted && (i == n || is_below(
                tree.nodes[i].path,
                here,
            )) by {
                if rest.0[i] != below.0[i] {
                } else if below.0[i] != marked[i] {
                    if i != child {
                        lemma_below_transitive(tree.nodes[i].path, there, here);
                    }
                } else {
                }
            }
            assert forall|e: int| 0 <= e < done.1.len() implies (#[trigger] done.1[e]).ty
                == EventType::Delete && is_below(done.1[e].path, here) by {
                if e < own.len() {
                } else if e < own.len() + below.1.len() {
                    let inner = below.1[e - own.len()];
                    assert(done.1[e] == inner);
                    lemma_below_transitive(inner.path, there, here);
                } else {
                    assert(done.1[e] == rest.1[e - own.len() - below.1.len()]);
                }
            }
        } else {
            let rest = sweep(tree, marked, n, k + 1);
            lemma_sweep_stays_below(tree, marked, n, k + 1);
            let done = sweep(tree, metas, n, k);
            assert(done == (rest.0, own + rest.1, 1 + rest.2));
            assert forall|e: int| 0 <= e < done.1.len() implies (#[trigger] done.1[e]).ty
                == EventType::Delete && is_below(done.1[e].path, here) by {
                if e < own.len() {
                } else {
                    assert(done.1[e] == rest.1[e - own.len()]);
                }
            }
        }
    }
}

/// Marking a node and what lies below it as deleted gives a `Delete` for
/// paths below the node only, and leaves every node that is neither the
/// node nor below it as it was.
pub proof fn lemma_deleted_stays_below(tree: TreeView, n: int)
    requires
        tree.well_formed(),
        0 <= n < tree.nodes.len(),
    ensures
        tree.same_shape(deleted(tree, n).0),
        forall|i: int|
            0 <= i < tree.nodes.len() && i != n && !is_below(
                tree.nodes[i].path,
                tree.nodes[n].path,
            ) ==> (#[trigger] deleted(tree, n).0.nodes[i]) == tree.nodes[i],
        forall|e: int|
            0 <= e < deleted(tree, n).1.len() ==> (#[trigger] deleted(tree, n).1[e]).ty
                == EventType::Delete && is_below(deleted(tree, n).1[e].path, tree.nodes[n].path),
        deleted(tree, n).0.nodes[n].meta is Deleted,
{
    let metas = tree.metas();
    let marked = metas.update(n, NodeMeta::Deleted);
    lemma_swept_marks(tree, metas, n);
    lemma_with_metas(tree, metas, swept(tree, metas, n).0);
    if tree.nodes[n].children.present() {
        lemma_sweep_stays_below(tree, marked, n, 0);
        lemma_sweep_len(tree, marked, n, 0);
    }
}

} // verus!
