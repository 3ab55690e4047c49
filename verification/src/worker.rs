//! The state of the worker and the decisions of its loop.

use crate::events::{EventDebouncer, Events};
use crate::path::{
    bytes_eq, is_below, lemma_order_total, lemma_order_transitive, lemma_parent_sorts_first,
    lemma_subtree_together, path_lt, CanonicalPathBuf,
};
use crate::pending::PendingChanges;
use crate::tree::model::TreeView;
use crate::tree::{FileTree, NodeId};
use vstd::prelude::*;

verus! {

/// Every root is a node of the tree.
pub open spec fn roots_valid(tree: TreeView, roots: Seq<(NodeId, bool)>) -> bool {
    forall|r: int| 0 <= r < roots.len() ==> (#[trigger] roots[r]).0.0 < tree.nodes.len()
}

/// The path of the root at `r`.
pub open spec fn root_path(tree: TreeView, roots: Seq<(NodeId, bool)>, r: int) -> Seq<u8> {
    tree.nodes[roots[r].0.0 as int].path
}

/// The roots stand in the order of their paths, no path twice.
pub open spec fn roots_sorted(tree: TreeView, roots: Seq<(NodeId, bool)>) -> bool {
    forall|a: int, b: int|
        0 <= a < b < roots.len() ==> path_lt(
            #[trigger] root_path(tree, roots, a),
            #[trigger] root_path(tree, roots, b),
        )
}

/// The first place at or after `from` whose root does not come before
/// `path`.
pub open spec fn first_not_before(
    tree: TreeView,
    roots: Seq<(NodeId, bool)>,
    path: Seq<u8>,
    from: int,
) -> int
    decreases roots.len() - from,
{
    if 0 <= from < roots.len() && path_lt(root_path(tree, roots, from), path) {
        first_not_before(tree, roots, path, from + 1)
    } else {
        from
    }
}

/// The first place at or after `from` whose root does not lie below
/// `path`.
pub open spec fn first_not_below(
    tree: TreeView,
    roots: Seq<(NodeId, bool)>,
    path: Seq<u8>,
    from: int,
) -> int
    decreases roots.len() - from,
{
    if 0 <= from < roots.len() && path.len() > 0 && is_below(root_path(tree, roots, from), path) {
        first_not_below(tree, roots, path, from + 1)
    } else {
        from
    }
}

/// The roots after the node `node` was taken in as a root. It stands
/// behind the roots that come before it, in place of the entry that its
/// path had, if it had one. A recursive root also takes the place of the
/// roots below it, which follow it as one run.
pub open spec fn with_root(
    tree: TreeView,
    roots: Seq<(NodeId, bool)>,
    node: NodeId,
    recursive: bool,
) -> Seq<(NodeId, bool)> {
    let path = tree.nodes[node.0 as int].path;
    let at = first_not_before(tree, roots, path, 0);
    let from = if at < roots.len() && root_path(tree, roots, at) == path {
        at + 1
    } else {
        at
    };
    let end = if recursive {
        first_not_below(tree, roots, path, from)
    } else {
        from
    };
    roots.subrange(0, at).push((node, recursive)) + roots.subrange(end, roots.len() as int)
}

/// In sorted roots, a place that splits them into those before `path` and
/// the rest is the first place that is not before `path`.
pub proof fn lemma_first_not_before(
    tree: TreeView,
    roots: Seq<(NodeId, bool)>,
    path: Seq<u8>,
    at: int,
    from: int,
)
    requires
        0 <= from <= at <= roots.len(),
        forall|k: int| 0 <= k < at ==> path_lt(#[trigger] root_path(tree, roots, k), path),
        at < roots.len() ==> !path_lt(root_path(tree, roots, at), path),
    ensures
        first_not_before(tree, roots, path, from) == at,
    decreases at - from,
{
    if from < at {
        lemma_first_not_before(tree, roots, path, at, from + 1);
    }
}

/// The roots from `from` up to the first that does not lie below `path`
/// lie below it, and that one does not.
pub proof fn lemma_first_not_below(tree: TreeView, roots: Seq<(NodeId, bool)>, path: Seq<u8>, from: int)
    requires
        0 <= from <= roots.len(),
    ensures
        from <= first_not_below(tree, roots, path, from) <= roots.len(),
        forall|k: int|
            from <= k < first_not_below(tree, roots, path, from) ==> is_below(
                #[trigger] root_path(tree, roots, k),
                path,
            ),
        first_not_below(tree, roots, path, from) < roots.len() && path.len() > 0 ==> !is_below(
            root_path(tree, roots, first_not_below(tree, roots, path, from)),
            path,
        ),
    decreases roots.len() - from,
{
    if from < roots.len() && path.len() > 0 && is_below(root_path(tree, roots, from), path) {
        lemma_first_not_below(tree, roots, path, from + 1);
    }
}

/// Among sorted roots that all come after `path`, none lies below `path`
/// once the run of those that do has ended: what lies below a path stands
/// together in the order of paths.
pub proof fn lemma_none_below_after(
    tree: TreeView,
    roots: Seq<(NodeId, bool)>,
    path: Seq<u8>,
    from: int,
    k: int,
)
    requires
        roots_sorted(tree, roots),
        0 <= from <= roots.len(),
        path.len() > 0,
        forall|j: int| from <= j < roots.len() ==> path_lt(path, #[trigger] root_path(tree, roots, j)),
        first_not_below(tree, roots, path, from) <= k < roots.len(),
    ensures
        !is_below(root_path(tree, roots, k), path),
{
    let end = first_not_below(tree, roots, path, from);
    lemma_first_not_below(tree, roots, path, from);
    let outside = root_path(tree, roots, end);
    let inside = root_path(tree, roots, k);
    if k > end && is_below(inside, path) {
        assert(path_lt(path, outside));
        lemma_order_total(path, outside);
        lemma_subtree_together(path, inside, outside);
        assert(path_lt(outside, inside));
        lemma_order_total(outside, inside);
    }
}

/// Roots stay roots, in their order, when the tree grows.
pub proof fn lemma_roots_grown(old: TreeView, new: TreeView, roots: Seq<(NodeId, bool)>)
    requires
        new.grown_from(old),
        roots_valid(old, roots),
        roots_sorted(old, roots),
    ensures
        roots_valid(new, roots),
        roots_sorted(new, roots),
{
    assert forall|a: int, b: int| 0 <= a < b < roots.len() implies path_lt(
        #[trigger] root_path(new, roots, a),
        #[trigger] root_path(new, roots, b),
    ) by {
        assert(path_lt(root_path(old, roots, a), root_path(old, roots, b)));
        assert(new.nodes[roots[a].0.0 as int].path == old.nodes[roots[a].0.0 as int].path);
        assert(new.nodes[roots[b].0.0 as int].path == old.nodes[roots[b].0.0 as int].path);
    }
}

/// What the worker does after it has waited and has seen to new roots.
pub enum Step {
    /// The tree has settled: hand the batch to the handlers.
    Flush(Events),
    /// Events were lost: crawl every root.
    Recrawl,
    /// Apply the changes that came in.
    Apply,
}

/// What the worker owns: the changes it took from the queue, the
/// debouncer, the stack that walks of the tree share, the tree, and the
/// roots in the order of their paths, each with whether it is recursive.
pub struct Worker {
    pub pending_changes: PendingChanges,
    pub events: EventDebouncer,
    pub work_stack: Vec<(NodeId, usize)>,
    pub tree: FileTree,
    pub roots: Vec<(NodeId, bool)>,
}

impl Worker {
    /// Every part is well-formed, and the roots are nodes of the tree in
    /// the order of their paths.
    pub open spec fn wf(&self) -> bool {
        &&& self.pending_changes.wf()
        &&& self.events.wf()
        &&& self.tree.wf()
        &&& roots_valid(self.tree@, self.roots@)
        &&& roots_sorted(self.tree@, self.roots@)
    }

    /// A worker with nothing to do and nothing to watch.
    pub fn new() -> (worker: Worker)
        ensures
            worker.wf(),
            worker.pending_changes@.len() == 0,
            !worker.pending_changes.needs_recrawl(),
            worker.events@.len() == 0,
            !worker.events.signals_tempfiles(),
            worker.work_stack@.len() == 0,
            worker.tree@.nodes.len() == 0,
            worker.tree@.dirs.len() == 0,
            worker.roots@.len() == 0,
    {
        Worker {
            pending_changes: PendingChanges::new(),
            events: EventDebouncer::new(),
            work_stack: Vec::new(),
            tree: FileTree::new(),
            roots: Vec::new(),
        }
    }

    /// Whether the next wait has to end when the settle time has passed:
    /// it has if there are events to hand out.
    pub fn wait_for_settle(&self) -> (timed: bool)
        requires
            self.events.wf(),
        ensures
            timed == (crate::events::delivered(self.events@, self.events.signals_tempfiles()).len()
                > 0),
    {
        !self.events.is_empty()
    }

    /// Decides what to do after a wait: hand out the batch if the wait
    /// ended because the tree had settled, else crawl everything if that
    /// was asked for, else apply what came in.
    pub fn next_step(&mut self, settled: bool) -> (step: Step)
        requires
            old(self).wf(),
        ensures
            final(self).wf(),
            final(self).tree == old(self).tree,
            final(self).roots == old(self).roots,
            final(self).work_stack == old(self).work_stack,
            final(self).pending_changes@ == old(self).pending_changes@,
            final(self).events.signals_tempfiles() == old(self).events.signals_tempfiles(),
            match step {
                Step::Flush(batch) => settled && batch@ == crate::events::delivered(
                    old(self).events@,
                    old(self).events.signals_tempfiles(),
                ) && final(self).events@.len() == 0 && final(self).pending_changes.needs_recrawl()
                    == old(self).pending_changes.needs_recrawl(),
                Step::Recrawl => !settled && old(self).pending_changes.needs_recrawl() && !final(self).pending_changes.needs_recrawl() && final(self).events@ == old(self).events@,
                Step::Apply => !settled && !old(self).pending_changes.needs_recrawl() && !final(self).pending_changes.needs_recrawl() && final(self).events@ == old(self).events@,
            },
    {
        if settled {
            Step::Flush(self.events.take())
        } else if self.pending_changes.take_recrawl() {
            Step::Recrawl
        } else {
            Step::Apply
        }
    }

    /// The first place among the roots whose root does not come before
    /// `path`.
    fn lower_bound(&self, path: &CanonicalPathBuf) -> (at: usize)
        requires
            self.tree.wf(),
            roots_valid(self.tree@, self.roots@),
            roots_sorted(self.tree@, self.roots@),
        ensures
            at <= self.roots@.len(),
            at == first_not_before(self.tree@, self.roots@, path@, 0),
            forall|k: int| 0 <= k < at ==> path_lt(#[trigger] root_path(self.tree@, self.roots@, k), path@),
            forall|k: int|
                at <= k < self.roots@.len() ==> !path_lt(
                    #[trigger] root_path(self.tree@, self.roots@, k),
                    path@,
                ),
    {
        let ghost tree = self.tree@;
        let ghost roots = self.roots@;
        let mut low: usize = 0;
        let mut high: usize = self.roots.len();
        while low < high
            invariant
                low <= high <= roots.len(),
                roots == self.roots@,
                tree == self.tree@,
                self.tree.wf(),
                roots_valid(tree, roots),
                roots_sorted(tree, roots),
                forall|k: int| 0 <= k < low ==> path_lt(#[trigger] root_path(tree, roots, k), path@),
                forall|k: int|
                    high <= k < roots.len() ==> !path_lt(#[trigger] root_path(tree, roots, k), path@),
            decreases high - low,
        {
            let mid: usize = low + (high - low) / 2;
            let id = self.roots[mid].0;
            let ghost here = root_path(tree, roots, mid as int);
            if self.tree.path(id).precedes(path) {
                    assert forall|k: int| 0 <= k < mid + 1 implies path_lt(
                        #[trigger] root_path(tree, roots, k),
                        path@,
                    ) by {
                        if k < mid {
                            assert(path_lt(root_path(tree, roots, k), here));
                            lemma_order_transitive(root_path(tree, roots, k), here, path@);
                        }
                    }
                    low = mid + 1;
            } else {
                    assert forall|k: int| mid <= k < roots.len() implies !path_lt(
                        #[trigger] root_path(tree, roots, k),
                        path@,
                    ) by {
                        if k > mid && path_lt(root_path(tree, roots, k), path@) {
                            assert(path_lt(here, root_path(tree, roots, k)));
                            lemma_order_transitive(here, root_path(tree, roots, k), path@);
                        }
                    }
                    high = mid;
            }
        }
        proof {
            lemma_first_not_before(tree, roots, path@, low as int, 0);
        }
        low
    }

    /// Takes `node` in as a root. It is put behind the roots that come
    /// before it in the order of paths, in place of the entry that its
    /// path had, if it had one. A recursive root takes the place of every
    /// root below it, so that nothing is crawled twice. Every other root
    /// is kept.
    pub fn insert_root(&mut self, node: NodeId, recursive: bool)
        requires
            old(self).tree.wf(),
            roots_valid(old(self).tree@, old(self).roots@),
            roots_sorted(old(self).tree@, old(self).roots@),
            node.0 < old(self).tree@.nodes.len(),
        ensures
            final(self).tree == old(self).tree,
            final(self).pending_changes == old(self).pending_changes,
            final(self).events == old(self).events,
            final(self).work_stack == old(self).work_stack,
            final(self).roots@ == with_root(old(self).tree@, old(self).roots@, node, recursive),
            roots_valid(final(self).tree@, final(self).roots@),
            roots_sorted(final(self).tree@, final(self).roots@),
            final(self).roots@.contains((node, recursive)),
            recursive && old(self).tree@.nodes[node.0 as int].path.len() > 0 ==> forall|r: int|
                0 <= r < final(self).roots@.len() ==> !is_below(
                    #[trigger] root_path(final(self).tree@, final(self).roots@, r),
                    old(self).tree@.nodes[node.0 as int].path,
                ),
            forall|r: int|
                0 <= r < old(self).roots@.len() && root_path(old(self).tree@, old(self).roots@, r)
                    != old(self).tree@.nodes[node.0 as int].path && !(recursive && is_below(
                    root_path(old(self).tree@, old(self).roots@, r),
                    old(self).tree@.nodes[node.0 as int].path,
                )) ==> final(self).roots@.contains(#[trigger] old(self).roots@[r]),
    {
        let ghost tree = self.tree@;
        let ghost roots = self.roots@;
        let ghost path = tree.nodes[node.0 as int].path;
        let at = self.lower_bound(self.tree.path(node));
        let mut end: usize = at;
        if at < self.roots.len() && bytes_eq(
            self.tree.path(self.roots[at].0).logical(),
            self.tree.path(node).logical(),
        ) {
            end = at + 1;
        }
        let ghost from = end as int;
        proof {
            assert forall|j: int| from <= j < roots.len() implies path_lt(
                path,
                #[trigger] root_path(tree, roots, j),
            ) by {
                let first = root_path(tree, roots, at as int);
                lemma_order_total(first, path);
                if j > at {
                    assert(path_lt(first, root_path(tree, roots, j)));
                    if first != path {
                        lemma_order_transitive(path, first, root_path(tree, roots, j));
                    }
                }
            }
        }
        if recursive {
            while end < self.roots.len() && self.tree.path(node).is_parent_of(
                self.tree.path(self.roots[end].0),
            )
                invariant
                    from <= end <= roots.len(),
                    roots == self.roots@,
                    tree == self.tree@,
                    self.tree.wf(),
                    roots_valid(tree, roots),
                    node.0 < tree.nodes.len(),
                    path == tree.nodes[node.0 as int].path,
                    first_not_below(tree, roots, path, end as int) == first_not_below(
                        tree,
                        roots,
                        path,
                        from,
                    ),
                decreases roots.len() - end,
            {
                end += 1;
            }
        }
        let mut merged: Vec<(NodeId, bool)> = Vec::new();
        let mut i: usize = 0;
        while i < at
            invariant
                i <= at <= roots.len(),
                roots == self.roots@,
                merged@ == roots.subrange(0, i as int),
            decreases at - i,
        {
            merged.push(self.roots[i]);
            assert(merged@ =~= roots.subrange(0, i + 1));
            i += 1;
        }
        merged.push((node, recursive));
        let mut j: usize = end;
        while j < self.roots.len()
            invariant
                at <= end <= j <= roots.len(),
                roots == self.roots@,
                merged@ == roots.subrange(0, at as int).push((node, recursive)) + roots.subrange(
                    end as int,
                    j as int,
                ),
            decreases roots.len() - j,
        {
            merged.push(self.roots[j]);
            assert(merged@ =~= roots.subrange(0, at as int).push((node, recursive))
                + roots.subrange(end as int, j + 1));
            j += 1;
        }
        self.roots = merged;
        proof {
            let after = self.roots@;
            assert(after == with_root(tree, roots, node, recursive));
            lemma_first_not_below(tree, roots, path, from);
            assert(after[at as int] == (node, recursive));
            assert forall|r: int| 0 <= r < after.len() implies (#[trigger] after[r]).0.0
                < tree.nodes.len() by {
                if r < at {
                    assert(after[r] == roots[r]);
                } else if r > at {
                    assert(after[r] == roots[end + (r - at - 1)]);
                }
            }
            assert forall|a: int, b: int| 0 <= a < b < after.len() implies path_lt(
                #[trigger] root_path(tree, after, a),
                #[trigger] root_path(tree, after, b),
            ) by {
                if b < at {
                    assert(after[a] == roots[a] && after[b] == roots[b]);
                    assert(path_lt(root_path(tree, roots, a), root_path(tree, roots, b)));
                } else if b == at {
                    assert(after[a] == roots[a]);
                    assert(path_lt(root_path(tree, roots, a), path));
                } else if a == at {
                    let k = end + (b - at - 1);
                    assert(after[b] == roots[k]);
                    assert(path_lt(path, root_path(tree, roots, k)));
                } else if a < at {
                    let k = end + (b - at - 1);
                    assert(after[a] == roots[a] && after[b] == roots[k]);
                    assert(path_lt(root_path(tree, roots, a), path));
                    assert(path_lt(path, root_path(tree, roots, k)));
                    lemma_order_transitive(
                        root_path(tree, roots, a),
                        path,
                        root_path(tree, roots, k),
                    );
                } else {
                    let ka = end + (a - at - 1);
                    let kb = end + (b - at - 1);
                    assert(after[a] == roots[ka] && after[b] == roots[kb]);
                    assert(path_lt(root_path(tree, roots, ka), root_path(tree, roots, kb)));
                }
            }
            if recursive && path.len() > 0 {
                assert forall|r: int| 0 <= r < after.len() implies !is_below(
                    #[trigger] root_path(tree, after, r),
                    path,
                ) by {
                    if r < at {
                        assert(after[r] == roots[r]);
                        assert(path_lt(root_path(tree, roots, r), path));
                        if is_below(root_path(tree, roots, r), path) {
                            lemma_parent_sorts_first(path, root_path(tree, roots, r));
                            lemma_order_total(path, root_path(tree, roots, r));
                        }
                    } else if r > at {
                        let k = end + (r - at - 1);
                        assert(after[r] == roots[k]);
                        lemma_none_below_after(tree, roots, path, from, k);
                    }
                }
            }
            assert forall|r: int|
                0 <= r < roots.len() && root_path(tree, roots, r) != path && !(recursive
                    && is_below(root_path(tree, roots, r), path)) implies after.contains(
                #[trigger] roots[r],
            ) by {
                if r < at {
                    assert(after[r] == roots[r]);
                } else {
                    assert(r >= end) by {
                        if r < end {
                            if r < from {
                                assert(r == at);
                            } else {
                                assert(is_below(root_path(tree, roots, r), path));
                            }
                        }
                    }
                    assert(after[at + 1 + (r - end)] == roots[r]);
                }
            }
        }
    }
}

} // verus!
