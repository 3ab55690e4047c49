//! What the steps of a crawl do to the tree.

use crate::events::{EventType, EventView};
use crate::metadata::Metadata;
use crate::path::is_below;
use crate::pending::{ChangeView, MARK_RECURSIVE, NEEDS_RECURSIVE_CRAWL};
use crate::tree::change::{applied, has};
use crate::tree::model::{
    child_kept, lemma_mark_bits, lemma_same_shape, lemma_with_metas, unmarked, wears_mark, NodeView,
    TreeView,
};
use crate::tree::sweep::{delete_of, lemma_sweep_stays_below, lemma_swept_len, swept};
use crate::tree::{NodeId, NodeMeta, MAYBE_DELETED};
use vstd::prelude::*;

verus! {

/// The tree after the first `upto` children of the node at `n` were marked
/// as not met yet.
pub open spec fn flagged(tree: TreeView, n: int, upto: int) -> TreeView
    decreases upto,
{
    if upto <= 0 {
        tree
    } else {
        let before = flagged(tree, n, upto - 1);
        let child = tree.children_of(n)[upto - 1].0 as int;
        before.with_node(
            child,
            NodeView { flags: before.nodes[child].flags | MAYBE_DELETED, ..before.nodes[child] },
        )
    }
}

/// What is gone from a directory that was crawled, from its `k`th child
/// on: every child that still wears the mark of not having been met and
/// is not yet remembered as deleted. It gives a `Delete` of its own, and
/// it and everything below it is marked as deleted.
pub open spec fn resolved(tree: TreeView, metas: Seq<NodeMeta>, n: int, k: int) -> (
    Seq<NodeMeta>,
    Seq<EventView>,
)
    decreases tree.children_of(n).len() - k,
{
    let list = tree.children_of(n);
    if k < 0 || k >= list.len() {
        (metas, Seq::empty())
    } else {
        let child = list[k].0 as int;
        if has(tree.nodes[child].flags, MAYBE_DELETED) && !(metas[child] is Deleted) {
            let gone = swept(tree, metas, child);
            let rest = resolved(tree, gone.0, n, k + 1);
            (rest.0, seq![delete_of(tree.nodes[child].path)] + gone.1 + rest.1)
        } else {
            resolved(tree, metas, n, k + 1)
        }
    }
}

/// The tree after the mark of not having been met was taken off the first
/// `upto` children of the node at `n`.
pub open spec fn unflagged(tree: TreeView, n: int, upto: int) -> TreeView
    decreases upto,
{
    if upto <= 0 {
        tree
    } else {
        let before = unflagged(tree, n, upto - 1);
        let child = tree.children_of(n)[upto - 1].0 as int;
        before.with_node(
            child,
            NodeView { flags: before.nodes[child].flags & !MAYBE_DELETED, ..before.nodes[child] },
        )
    }
}

/// A directory that was crawled is settled: what the crawl did not meet
/// among its children is gone, and no child wears the mark any longer.
pub open spec fn settled(tree: TreeView, n: int) -> (TreeView, Seq<EventView>) {
    let gone = resolved(tree, tree.metas(), n, 0);
    (unflagged(tree.with_metas(gone.0), n, tree.children_of(n).len() as int), gone.1)
}

/// The directories that a crawl has left behind once it meets an entry at
/// `depth` are settled: innermost first, every frame that stands at `depth`
/// or deeper. Gives the tree, the events, and the frames that are left.
pub open spec fn unwound(tree: TreeView, frames: Seq<(NodeId, usize)>, depth: usize) -> (
    TreeView,
    Seq<EventView>,
    Seq<(NodeId, usize)>,
)
    decreases frames.len(),
{
    if frames.len() == 0 || frames.last().1 < depth {
        (tree, Seq::empty(), frames)
    } else {
        let inner = settled(tree, frames.last().0.0 as int);
        let outer = unwound(inner.0, frames.drop_last(), depth);
        (outer.0, inner.1 + outer.1, outer.2)
    }
}

/// A frame of a crawl stands at a node with a child list.
pub open spec fn crawl_frame_ok(tree: TreeView, frame: (NodeId, usize)) -> bool {
    frame.0.0 < tree.nodes.len() && tree.nodes[frame.0.0 as int].children.present()
}

/// Every frame of a crawl stands at a node with a child list.
pub open spec fn crawl_frames_ok(tree: TreeView, frames: Seq<(NodeId, usize)>) -> bool {
    forall|f: int| 0 <= f < frames.len() ==> crawl_frame_ok(tree, #[trigger] frames[f])
}

/// The flags that a crawl gives to the changes it makes up.
pub open spec fn crawl_flags(recursive: bool) -> u32 {
    if recursive {
        NEEDS_RECURSIVE_CRAWL | MARK_RECURSIVE
    } else {
        NEEDS_RECURSIVE_CRAWL
    }
}

/// A crawl starts at the node at `root`: if the node has a child list, its
/// children are marked as not met yet and the root becomes the first frame.
pub open spec fn crawl_started(tree: TreeView, frames: Seq<(NodeId, usize)>, root: int) -> (
    TreeView,
    Seq<(NodeId, usize)>,
) {
    if tree.nodes[root].children.present() {
        (
            flagged(tree, root, tree.children_of(root).len() as int),
            frames.push((NodeId(root as u32), 0usize)),
        )
    } else {
        (tree, frames)
    }
}

/// A crawl meets `path` at `depth` below its root, and a `stat` of it found
/// `meta`. The path is applied to the tree as a change that asks for a
/// crawl. Its node, if it has one, is met. The directories that the walk
/// has left are settled. A directory met by a recursive crawl is to be
/// watched; if it has a child list, its children are marked as not met yet
/// and it becomes the innermost frame. Gives the tree, the events, the
/// frames, and whether the path is to be watched.
pub open spec fn crawl_entered(
    tree: TreeView,
    frames: Seq<(NodeId, usize)>,
    recursive: bool,
    path: Seq<u8>,
    depth: usize,
    meta: Option<Metadata>,
) -> (TreeView, Seq<EventView>, Seq<(NodeId, usize)>, bool) {
    let found = applied(tree, ChangeView { path, flags: crawl_flags(recursive) }, meta);
    let n = found.2.0 as int;
    let met = if found.2.present() {
        found.0.with_node(
            n,
            NodeView { flags: found.0.nodes[n].flags & !MAYBE_DELETED, ..found.0.nodes[n] },
        )
    } else {
        found.0
    };
    let left = unwound(met, frames, depth);
    let after = left.0;
    if found.2.present() && after.nodes[n].meta is Dir && recursive {
        if after.nodes[n].children.present() {
            (
                flagged(after, n, after.children_of(n).len() as int),
                found.1 + left.1,
                left.2.push((found.2, depth)),
                true,
            )
        } else {
            (after, found.1 + left.1, left.2, true)
        }
    } else {
        (after, found.1 + left.1, left.2, false)
    }
}

/// Marking children keeps the shape of the tree and what its nodes
/// remember.
pub proof fn lemma_flagged(tree: TreeView, n: int, upto: int)
    requires
        tree.well_formed(),
        0 <= n < tree.nodes.len(),
        0 <= upto <= tree.children_of(n).len(),
    ensures
        tree.same_shape(flagged(tree, n, upto)),
        flagged(tree, n, upto).metas() == tree.metas(),
    decreases upto,
{
    if upto > 0 {
        lemma_flagged(tree, n, upto - 1);
        let before = flagged(tree, n, upto - 1);
        let child = tree.children_of(n)[upto - 1].0 as int;
        assert(tree.nodes[n].children.absent() || tree.nodes[n].children.0 < tree.dirs.len());
        assert(tree.dirs[tree.nodes[n].children.0 as int][upto - 1].0 < tree.nodes.len());
        assert(flagged(tree, n, upto).metas() =~= before.metas());
    } else {
        assert(tree.metas() =~= tree.metas());
    }
}

/// Taking marks off keeps the shape of the tree and what its nodes
/// remember.
pub proof fn lemma_unflagged(tree: TreeView, n: int, upto: int)
    requires
        tree.well_formed(),
        0 <= n < tree.nodes.len(),
        0 <= upto <= tree.children_of(n).len(),
    ensures
        tree.same_shape(unflagged(tree, n, upto)),
        unflagged(tree, n, upto).metas() == tree.metas(),
    decreases upto,
{
    if upto > 0 {
        lemma_unflagged(tree, n, upto - 1);
        let before = unflagged(tree, n, upto - 1);
        let child = tree.children_of(n)[upto - 1].0 as int;
        assert(tree.nodes[n].children.absent() || tree.nodes[n].children.0 < tree.dirs.len());
        assert(tree.dirs[tree.nodes[n].children.0 as int][upto - 1].0 < tree.nodes.len());
        assert(unflagged(tree, n, upto).metas() =~= before.metas());
    } else {
        assert(tree.metas() =~= tree.metas());
    }
}

/// Settling a directory keeps the number of nodes.
pub proof fn lemma_resolved_len(tree: TreeView, metas: Seq<NodeMeta>, n: int, k: int)
    requires
        tree.well_formed(),
        0 <= n < tree.nodes.len(),
        metas.len() == tree.nodes.len(),
    ensures
        resolved(tree, metas, n, k).0.len() == metas.len(),
    decreases tree.children_of(n).len() - k,
{
    let list = tree.children_of(n);
    if k < 0 || k >= list.len() {
    } else {
        let child = list[k].0 as int;
        assert(tree.nodes[n].children.absent() || tree.nodes[n].children.0 < tree.dirs.len());
        assert(tree.dirs[tree.nodes[n].children.0 as int][k].0 < tree.nodes.len());
        if has(tree.nodes[child].flags, MAYBE_DELETED) && !(metas[child] is Deleted) {
            lemma_swept_len(tree, metas, child);
            lemma_resolved_len(tree, swept(tree, metas, child).0, n, k + 1);
        } else {
            lemma_resolved_len(tree, metas, n, k + 1);
        }
    }
}

/// Settling with nothing to keep settles every frame.
pub proof fn lemma_unwound_all(tree: TreeView, frames: Seq<(NodeId, usize)>)
    ensures
        unwound(tree, frames, 0).2.len() == 0,
    decreases frames.len(),
{
    if frames.len() > 0 {
        let inner = settled(tree, frames.last().0.0 as int);
        lemma_unwound_all(inner.0, frames.drop_last());
    }
}

/// Frames that were in order stay in order when the tree grows.
pub proof fn lemma_frames_grown(old: TreeView, new: TreeView, frames: Seq<(NodeId, usize)>)
    requires
        new.grown_from(old),
        crawl_frames_ok(old, frames),
    ensures
        crawl_frames_ok(new, frames),
{
    assert forall|f: int| 0 <= f < frames.len() implies crawl_frame_ok(new, #[trigger] frames[f]) by {
        assert(crawl_frame_ok(old, frames[f]));
        assert(new.nodes[frames[f].0.0 as int].children == old.nodes[frames[f].0.0 as int].children);
    }
}

/// The child at `at` of the node at `n` still wears the mark of not having
/// been met, and `path` is its path or lies below it.
pub open spec fn wears_mark_at(tree: TreeView, n: int, at: int, path: Seq<u8>) -> bool {
    &&& 0 <= at < tree.children_of(n).len()
    &&& has(tree.nodes[tree.children_of(n)[at].0 as int].flags, MAYBE_DELETED)
    &&& (path == tree.nodes[tree.children_of(n)[at].0 as int].path || is_below(
        path,
        tree.nodes[tree.children_of(n)[at].0 as int].path,
    ))
}

/// `path` has gone with a child of the node at `n`, from the `k`th on, that
/// the crawl did not meet: it is the path of that child or lies below it.
pub open spec fn gone_with(tree: TreeView, n: int, k: int, path: Seq<u8>) -> bool {
    exists|at: int| k <= at && #[trigger] wears_mark_at(tree, n, at, path)
}

/// What has gone with a later child has gone with a child.
pub proof fn lemma_gone_with_later(tree: TreeView, n: int, k: int, path: Seq<u8>)
    requires
        gone_with(tree, n, k + 1, path),
    ensures
        gone_with(tree, n, k, path),
{
    let at = choose|at: int| k + 1 <= at && #[trigger] wears_mark_at(tree, n, at, path);
    assert(wears_mark_at(tree, n, at, path));
}

/// Settling a directory spares what the crawl met: a node that does not
/// remember what it did is marked as deleted, and it is a child that still
/// wore the mark or lies below one. Every event is a `Delete` of such a
/// child or of a path below one.
pub proof fn lemma_resolved_spares_the_met(tree: TreeView, metas: Seq<NodeMeta>, n: int, k: int)
    requires
        tree.well_formed(),
        metas.len() == tree.nodes.len(),
        0 <= n < tree.nodes.len(),
        0 <= k,
    ensures
        forall|i: int|
            0 <= i < metas.len() && #[trigger] resolved(tree, metas, n, k).0[i] != metas[i]
                ==> resolved(tree, metas, n, k).0[i] is Deleted && gone_with(tree, n, k, tree.nodes[i].path),
        forall|e: int|
            0 <= e < resolved(tree, metas, n, k).1.len() ==> (#[trigger] resolved(
                tree,
                metas,
                n,
                k,
            ).1[e]).ty == EventType::Delete && gone_with(
                tree,
                n,
                k,
                resolved(tree, metas, n, k).1[e].path,
            ),
    decreases tree.children_of(n).len() - k,
{
    let list = tree.children_of(n);
    if k >= list.len() {
    } else {
        let child = list[k].0 as int;
        assert(tree.nodes[n].children.absent() || tree.nodes[n].children.0 < tree.dirs.len());
        assert(tree.dirs[tree.nodes[n].children.0 as int][k].0 < tree.nodes.len());
        let there = tree.nodes[child].path;
        if has(tree.nodes[child].flags, MAYBE_DELETED) && !(metas[child] is Deleted) {
            let gone = swept(tree, metas, child);
            let rest = resolved(tree, gone.0, n, k + 1);
            let marked = metas.update(child, NodeMeta::Deleted);
            lemma_swept_len(tree, metas, child);
            if tree.nodes[child].children.present() {
                lemma_sweep_stays_below(tree, marked, child, 0);
            }
            lemma_resolved_spares_the_met(tree, gone.0, n, k + 1);
            let done = resolved(tree, metas, n, k);
            let own = seq![delete_of(there)];
            assert(done == (rest.0, own + gone.1 + rest.1));
            assert forall|i: int| 0 <= i < metas.len() && #[trigger] done.0[i]
                != metas[i] implies done.0[i] is Deleted && gone_with(
                tree,
                n,
                k,
                tree.nodes[i].path,
            ) by {
                if rest.0[i] != gone.0[i] {
                    lemma_gone_with_later(tree, n, k, tree.nodes[i].path);
                } else {
                    assert(gone.0[i] != metas[i]);
                    assert(i == child || is_below(tree.nodes[i].path, there));
                    assert(wears_mark_at(tree, n, k, tree.nodes[i].path));
                }
            }
            assert forall|e: int| 0 <= e < done.1.len() implies (#[trigger] done.1[e]).ty
                == EventType::Delete && gone_with(tree, n, k, done.1[e].path) by {
                if e < own.len() {
                    assert(wears_mark_at(tree, n, k, done.1[e].path));
                } else if e < own.len() + gone.1.len() {
                    assert(done.1[e] == gone.1[e - own.len()]);
                    assert(wears_mark_at(tree, n, k, done.1[e].path));
                } else {
                    assert(done.1[e] == rest.1[e - own.len() - gone.1.len()]);
                    lemma_gone_with_later(tree, n, k, done.1[e].path);
                }
            }
        } else {
            lemma_resolved_spares_the_met(tree, metas, n, k + 1);
            assert forall|i: int| 0 <= i < metas.len() && #[trigger] resolved(
                tree,
                metas,
                n,
                k,
            ).0[i] != metas[i] implies gone_with(tree, n, k, tree.nodes[i].path) by {
                lemma_gone_with_later(tree, n, k, tree.nodes[i].path);
            }
            assert forall|e: int| 0 <= e < resolved(tree, metas, n, k).1.len() implies gone_with(
                tree,
                n,
                k,
                (#[trigger] resolved(tree, metas, n, k).1[e]).path,
            ) by {
                lemma_gone_with_later(tree, n, k, resolved(tree, metas, n, k).1[e].path);
            }
        }
    }
}

/// The node at `i` is the `k`th child of the node of the frame at `f`.
pub open spec fn is_child_at(tree: TreeView, frames: Seq<(NodeId, usize)>, f: int, k: int, i: int) -> bool {
    &&& 0 <= f < frames.len()
    &&& 0 <= k < tree.children_of(frames[f].0.0 as int).len()
    &&& tree.children_of(frames[f].0.0 as int)[k].0 == i
}

/// Every node that wears the mark of not having been met is a child of a
/// directory that the crawl is still in: the mark is worn during a crawl
/// only, and only below where the crawl stands.
pub open spec fn marks_on_frames(tree: TreeView, frames: Seq<(NodeId, usize)>) -> bool {
    forall|i: int|
        0 <= i < tree.nodes.len() && #[trigger] wears_mark(tree, i) ==> exists|f: int, k: int| #[trigger]
            is_child_at(tree, frames, f, k, i)
}

/// Without a crawl under way no node wears the mark.
pub proof fn lemma_no_frames_no_marks(tree: TreeView, frames: Seq<(NodeId, usize)>)
    requires
        marks_on_frames(tree, frames),
        frames.len() == 0,
    ensures
        unmarked(tree),
{
    assert forall|i: int| 0 <= i < tree.nodes.len() implies !#[trigger] wears_mark(tree, i) by {
        if wears_mark(tree, i) {
            let (f, k) = choose|f: int, k: int| #[trigger] is_child_at(tree, frames, f, k, i);
            assert(is_child_at(tree, frames, f, k, i));
        }
    }
}

/// A tree without marks has its marks where a crawl stands, wherever that
/// is.
pub proof fn lemma_unmarked_on_frames(tree: TreeView, frames: Seq<(NodeId, usize)>)
    requires
        unmarked(tree),
    ensures
        marks_on_frames(tree, frames),
{
}

/// Marking children marks nothing but children.
pub proof fn lemma_flagged_marks(tree: TreeView, n: int, upto: int, i: int)
    requires
        tree.well_formed(),
        0 <= n < tree.nodes.len(),
        0 <= upto <= tree.children_of(n).len(),
        0 <= i < tree.nodes.len(),
        wears_mark(flagged(tree, n, upto), i),
    ensures
        wears_mark(tree, i) || exists|k: int|
            0 <= k < upto && (#[trigger] tree.children_of(n)[k]).0 == i,
    decreases upto,
{
    if upto > 0 {
        lemma_flagged(tree, n, upto - 1);
        let before = flagged(tree, n, upto - 1);
        let child = tree.children_of(n)[upto - 1].0 as int;
        if i != child {
            assert(before.nodes[i].flags == flagged(tree, n, upto).nodes[i].flags);
            lemma_flagged_marks(tree, n, upto - 1, i);
        }
    }
}

/// Taking marks off gives no mark, and leaves none on the children.
pub proof fn lemma_unflagged_marks(tree: TreeView, n: int, upto: int, i: int)
    requires
        tree.well_formed(),
        0 <= n < tree.nodes.len(),
        0 <= upto <= tree.children_of(n).len(),
        0 <= i < tree.nodes.len(),
        wears_mark(unflagged(tree, n, upto), i),
    ensures
        wears_mark(tree, i),
        forall|k: int| 0 <= k < upto ==> (#[trigger] tree.children_of(n)[k]).0 != i,
    decreases upto,
{
    if upto > 0 {
        lemma_unflagged(tree, n, upto - 1);
        let before = unflagged(tree, n, upto - 1);
        let child = tree.children_of(n)[upto - 1].0 as int;
        assert(tree.nodes[n].children.absent() || tree.nodes[n].children.0 < tree.dirs.len());
        assert(tree.dirs[tree.nodes[n].children.0 as int][upto - 1].0 < tree.nodes.len());
        lemma_mark_bits(before.nodes[child].flags);
        if i != child {
            assert(before.nodes[i].flags == unflagged(tree, n, upto).nodes[i].flags);
        }
        lemma_unflagged_marks(tree, n, upto - 1, i);
    }
}

/// The marks stay where the crawl stands when the tree keeps its marks
/// and children.
pub proof fn lemma_marks_kept(old: TreeView, new: TreeView, frames: Seq<(NodeId, usize)>)
    requires
        new.keeps(old),
        crawl_frames_ok(old, frames),
        marks_on_frames(old, frames),
    ensures
        marks_on_frames(new, frames),
{
    assert forall|i: int| 0 <= i < new.nodes.len() && #[trigger] wears_mark(new, i) implies exists|
        f: int,
        k: int,
    | #[trigger] is_child_at(new, frames, f, k, i) by {
        if i >= old.nodes.len() {
            assert(!wears_mark(new, i));
        }
        assert(wears_mark(old, i));
        let (f, k) = choose|f: int, k: int| #[trigger] is_child_at(old, frames, f, k, i);
        assert(crawl_frame_ok(old, frames[f]));
        assert(child_kept(old, new, frames[f].0.0 as int, k));
        assert(is_child_at(new, frames, f, k, i));
    }
}

/// The marks stay where the crawl stands when a node is met.
pub proof fn lemma_marks_met(tree: TreeView, frames: Seq<(NodeId, usize)>, n: int)
    requires
        0 <= n < tree.nodes.len(),
        crawl_frames_ok(tree, frames),
        marks_on_frames(tree, frames),
    ensures
        marks_on_frames(
            tree.with_node(
                n,
                NodeView { flags: tree.nodes[n].flags & !MAYBE_DELETED, ..tree.nodes[n] },
            ),
            frames,
        ),
{
    let met = tree.with_node(
        n,
        NodeView { flags: tree.nodes[n].flags & !MAYBE_DELETED, ..tree.nodes[n] },
    );
    lemma_mark_bits(tree.nodes[n].flags);
    assert forall|i: int| 0 <= i < met.nodes.len() && #[trigger] wears_mark(met, i) implies exists|
        f: int,
        k: int,
    | #[trigger] is_child_at(met, frames, f, k, i) by {
        assert(i != n);
        assert(wears_mark(tree, i));
        let (f, k) = choose|f: int, k: int| #[trigger] is_child_at(tree, frames, f, k, i);
        assert(crawl_frame_ok(tree, frames[f]));
        assert(met.nodes[frames[f].0.0 as int].children == tree.nodes[frames[f].0.0 as int].children);
        assert(met.children_of(frames[f].0.0 as int) == tree.children_of(frames[f].0.0 as int));
        assert(is_child_at(met, frames, f, k, i));
    }
}

/// The marks are where the crawl stands after it has gone into a
/// directory.
pub proof fn lemma_marks_pushed(tree: TreeView, frames: Seq<(NodeId, usize)>, n: int, depth: usize)
    requires
        tree.well_formed(),
        0 <= n < tree.nodes.len(),
        crawl_frames_ok(tree, frames),
        marks_on_frames(tree, frames),
    ensures
        marks_on_frames(
            flagged(tree, n, tree.children_of(n).len() as int),
            frames.push((NodeId(n as u32), depth)),
        ),
{
    let total = tree.children_of(n).len() as int;
    let after = flagged(tree, n, total);
    let pushed = frames.push((NodeId(n as u32), depth));
    lemma_flagged(tree, n, total);
    assert forall|m: int| 0 <= m < tree.nodes.len() implies after.children_of(m)
        == tree.children_of(m) by {
        assert(tree.nodes[m].children == after.nodes[m].children);
    }
    assert forall|i: int|
        0 <= i < after.nodes.len() && #[trigger] wears_mark(after, i) implies exists|
        f: int,
        k: int,
    | #[trigger] is_child_at(after, pushed, f, k, i) by {
        lemma_flagged_marks(tree, n, total, i);
        if wears_mark(tree, i) {
            let (f, k) = choose|f: int, k: int| #[trigger] is_child_at(tree, frames, f, k, i);
            assert(crawl_frame_ok(tree, frames[f]));
            assert(pushed[f] == frames[f]);
            assert(is_child_at(after, pushed, f, k, i));
        } else {
            let k = choose|k: int| 0 <= k < total && (#[trigger] tree.children_of(n)[k]).0 == i;
            assert(is_child_at(after, pushed, frames.len() as int, k, i));
        }
    }
}

/// Settling a directory keeps the shape of the tree.
pub proof fn lemma_settled(tree: TreeView, n: int)
    requires
        tree.well_formed(),
        0 <= n < tree.nodes.len(),
    ensures
        tree.same_shape(settled(tree, n).0),
        settled(tree, n).0.well_formed(),
{
    let gone = resolved(tree, tree.metas(), n, 0);
    let marked = tree.with_metas(gone.0);
    assert(tree.metas().len() == tree.nodes.len());
    lemma_resolved_len(tree, tree.metas(), n, 0);
    lemma_with_metas(tree, tree.metas(), gone.0);
    lemma_same_shape(tree, marked);
    assert(marked.children_of(n) == tree.children_of(n)) by {
        assert(tree.nodes[n].children == marked.nodes[n].children);
    }
    lemma_unflagged(marked, n, tree.children_of(n).len() as int);
    let after = settled(tree, n).0;
    assert forall|i: int| 0 <= i < tree.nodes.len() implies (#[trigger] tree.nodes[i]).path
        == after.nodes[i].path && tree.nodes[i].children == after.nodes[i].children by {
        assert(marked.nodes[i].path == after.nodes[i].path);
        assert(marked.nodes[i].children == after.nodes[i].children);
    }
    lemma_same_shape(tree, after);
}

/// The marks are where the crawl stands after it has left directories
/// behind: what it settled wears no mark any longer.
pub proof fn lemma_unwound_marks(tree: TreeView, frames: Seq<(NodeId, usize)>, depth: usize)
    requires
        tree.well_formed(),
        crawl_frames_ok(tree, frames),
        marks_on_frames(tree, frames),
    ensures
        marks_on_frames(unwound(tree, frames, depth).0, unwound(tree, frames, depth).2),
    decreases frames.len(),
{
    if frames.len() == 0 || frames.last().1 < depth {
    } else {
        let n = frames.last().0.0 as int;
        let rest = frames.drop_last();
        assert(crawl_frame_ok(tree, frames[frames.len() - 1]));
        let inner = settled(tree, n).0;
        lemma_settled(tree, n);
        let gone = resolved(tree, tree.metas(), n, 0);
        let marked = tree.with_metas(gone.0);
        lemma_resolved_len(tree, tree.metas(), n, 0);
        lemma_with_metas(tree, tree.metas(), gone.0);
        lemma_same_shape(tree, marked);
        assert forall|m: int| 0 <= m < tree.nodes.len() implies inner.children_of(m)
            == tree.children_of(m) && marked.children_of(m) == tree.children_of(m) by {
            assert(tree.nodes[m].children == inner.nodes[m].children);
            assert(tree.nodes[m].children == marked.nodes[m].children);
        }
        assert forall|f: int| 0 <= f < rest.len() implies crawl_frame_ok(inner, #[trigger] rest[f]) by {
            assert(crawl_frame_ok(tree, frames[f]));
            assert(tree.nodes[frames[f].0.0 as int].children
                == inner.nodes[frames[f].0.0 as int].children);
        }
        assert forall|i: int|
            0 <= i < inner.nodes.len() && #[trigger] wears_mark(inner, i) implies exists|
            f: int,
            k: int,
        | #[trigger] is_child_at(inner, rest, f, k, i) by {
            lemma_unflagged_marks(marked, n, tree.children_of(n).len() as int, i);
            assert(marked.nodes[i].flags == tree.nodes[i].flags);
            assert(wears_mark(tree, i));
            let (f, k) = choose|f: int, k: int| #[trigger] is_child_at(tree, frames, f, k, i);
            if f == frames.len() - 1 {
                assert(marked.children_of(n)[k].0 != i);
            }
            assert(is_child_at(inner, rest, f, k, i));
        }
        lemma_unwound_marks(inner, rest, depth);
    }
}

} // verus!
