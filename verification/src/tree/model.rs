//! The tree as plain values, and what it means for it to be well-formed.

use crate::events::{reports, Event, EventView};
use crate::path::parent_bytes;
use crate::tree::{DirId, NodeId, NodeMeta, MAYBE_DELETED, RECURSIVE, WATCH_CHILDREN};
use vstd::prelude::*;

verus! {

/// A node as a plain value.
pub ghost struct NodeView {
    pub path: Seq<u8>,
    pub meta: NodeMeta,
    pub inode: u64,
    pub flags: u32,
    pub children: DirId,
}

/// The tree as plain values: its nodes, and the child lists that its
/// directories own.
pub ghost struct TreeView {
    pub nodes: Seq<NodeView>,
    pub dirs: Seq<Seq<NodeId>>,
}

impl TreeView {
    /// The children of the node at `n`, in the order in which they were
    /// added; none for a node without a child list.
    pub open spec fn children_of(self, n: int) -> Seq<NodeId> {
        let list = self.nodes[n].children;
        if list.present() && list.0 < self.dirs.len() {
            self.dirs[list.0 as int]
        } else {
            Seq::empty()
        }
    }

    /// The path of each node.
    pub open spec fn paths(self) -> Seq<Seq<u8>> {
        self.nodes.map_values(|node: NodeView| node.path)
    }

    /// What each node remembers of its path.
    pub open spec fn metas(self) -> Seq<NodeMeta> {
        self.nodes.map_values(|node: NodeView| node.meta)
    }

    /// The same tree with `metas` in place of what the nodes remember.
    pub open spec fn with_metas(self, metas: Seq<NodeMeta>) -> TreeView {
        TreeView {
            nodes: Seq::new(
                self.nodes.len(),
                |i: int| NodeView { meta: metas[i], ..self.nodes[i] },
            ),
            dirs: self.dirs,
        }
    }

    /// The same tree with `node` in place of the node at `n`.
    pub open spec fn with_node(self, n: int, node: NodeView) -> TreeView {
        TreeView { nodes: self.nodes.update(n, node), dirs: self.dirs }
    }

    /// The node that stands for `path`, if there is one.
    pub open spec fn find(self, path: Seq<u8>) -> Option<int> {
        if exists|i: int| 0 <= i < self.nodes.len() && self.nodes[i].path == path {
            Some(choose|i: int| 0 <= i < self.nodes.len() && self.nodes[i].path == path)
        } else {
            None
        }
    }

    /// The two trees differ at most in what their nodes remember, in their
    /// inodes and in their flags.
    pub open spec fn same_shape(self, other: TreeView) -> bool {
        &&& self.nodes.len() == other.nodes.len()
        &&& self.dirs == other.dirs
        &&& forall|i: int|
            0 <= i < self.nodes.len() ==> (#[trigger] self.nodes[i]).path == other.nodes[i].path
                && self.nodes[i].children == other.nodes[i].children
    }

    /// Ids fit their type and point at what exists, no path has two nodes,
    /// no child list has two owners, every child was made after its
    /// parent and lies directly below it, and no list is longer than the
    /// list of nodes.
    pub open spec fn well_formed(self) -> bool {
        &&& self.nodes.len() < u32::MAX
        &&& self.dirs.len() < u32::MAX
        &&& forall|i: int, j: int|
            0 <= i < self.nodes.len() && 0 <= j < self.nodes.len() && self.nodes[i].path
                == self.nodes[j].path ==> i == j
        &&& forall|n: int|
            0 <= n < self.nodes.len() ==> (#[trigger] self.nodes[n]).children.absent()
                || self.nodes[n].children.0 < self.dirs.len()
        &&& forall|a: int, b: int|
            0 <= a < self.nodes.len() && 0 <= b < self.nodes.len() && (
            #[trigger] self.nodes[a]).children.present() && self.nodes[a].children == (
            #[trigger] self.nodes[b]).children ==> a == b
        &&& forall|d: int, k: int|
            0 <= d < self.dirs.len() && 0 <= k < self.dirs[d].len() ==> (
            #[trigger] self.dirs[d][k]).0 < self.nodes.len()
        &&& forall|n: int, k: int|
            0 <= n < self.nodes.len() && 0 <= k < self.children_of(n).len() ==> (
            #[trigger] self.children_of(n)[k]).0 > n && parent_bytes(
                self.nodes[self.children_of(n)[k].0 as int].path,
            ) == Some(self.nodes[n].path)
        &&& forall|d: int| 0 <= d < self.dirs.len() ==> (#[trigger] self.dirs[d]).len() <= self.nodes.len()
    }

    /// There is room for one more node with a child list of its own and a
    /// first list for its parent.
    pub open spec fn has_room(self) -> bool {
        &&& self.nodes.len() + 1 < u32::MAX
        &&& self.nodes.len() < isize::MAX
        &&& self.dirs.len() + 2 < u32::MAX
    }
}

/// The events of a list as plain values.
pub open spec fn event_views(events: Seq<Event>) -> Seq<EventView> {
    reports(events)
}

/// A tree of the same shape as a well-formed one is well-formed.
pub proof fn lemma_same_shape(tree: TreeView, other: TreeView)
    requires
        tree.well_formed(),
        tree.same_shape(other),
    ensures
        other.well_formed(),
        other.paths() == tree.paths(),
        other.has_room() == tree.has_room(),
{
    assert(other.paths() =~= tree.paths());
    assert forall|n: int| 0 <= n < other.nodes.len() implies other.children_of(n)
        == tree.children_of(n) by {
        assert(tree.nodes[n].children == other.nodes[n].children);
    }
    assert forall|i: int, j: int|
        0 <= i < other.nodes.len() && 0 <= j < other.nodes.len() && other.nodes[i].path
            == other.nodes[j].path implies i == j by {
        assert(tree.nodes[i].path == other.nodes[i].path);
        assert(tree.nodes[j].path == other.nodes[j].path);
    }
    assert forall|n: int| 0 <= n < other.nodes.len() implies (#[trigger] other.nodes[n]).children.absent()
        || other.nodes[n].children.0 < other.dirs.len() by {
        assert(tree.nodes[n].children == other.nodes[n].children);
    }
    assert forall|a: int, b: int|
        0 <= a < other.nodes.len() && 0 <= b < other.nodes.len() && (
        #[trigger] other.nodes[a]).children.present() && other.nodes[a].children == (
        #[trigger] other.nodes[b]).children implies a == b by {
        assert(tree.nodes[a].children == other.nodes[a].children);
        assert(tree.nodes[b].children == other.nodes[b].children);
    }
    assert forall|n: int, k: int|
        0 <= n < other.nodes.len() && 0 <= k < other.children_of(n).len() implies (
    #[trigger] other.children_of(n)[k]).0 > n && parent_bytes(
        other.nodes[other.children_of(n)[k].0 as int].path,
    ) == Some(other.nodes[n].path) by {
        assert(tree.children_of(n)[k].0 > n);
        assert(tree.nodes[n].children.absent() || tree.nodes[n].children.0 < tree.dirs.len());
        assert(tree.dirs[tree.nodes[n].children.0 as int][k].0 < tree.nodes.len());
        assert(tree.nodes[tree.children_of(n)[k].0 as int].path
            == other.nodes[tree.children_of(n)[k].0 as int].path);
        assert(tree.nodes[n].path == other.nodes[n].path);
    }
}

/// Replacing what the nodes remember twice is replacing it once.
pub proof fn lemma_with_metas(tree: TreeView, first: Seq<NodeMeta>, second: Seq<NodeMeta>)
    requires
        second.len() == tree.nodes.len(),
    ensures
        tree.with_metas(first).with_metas(second) == tree.with_metas(second),
        tree.with_metas(second).metas() == second,
        tree.same_shape(tree.with_metas(second)),
        tree.with_metas(tree.metas()) == tree,
{
    assert(tree.with_metas(first).with_metas(second).nodes =~= tree.with_metas(second).nodes);
    assert(tree.with_metas(second).metas() =~= second);
    assert(tree.with_metas(tree.metas()).nodes =~= tree.nodes);
}

/// The tree after the node at `n` got a fresh, empty child list.
pub open spec fn reserved(tree: TreeView, n: int) -> TreeView {
    TreeView {
        nodes: tree.nodes.update(
            n,
            NodeView { children: DirId(tree.dirs.len() as u32), ..tree.nodes[n] },
        ),
        dirs: tree.dirs.push(Seq::empty()),
    }
}

/// The tree after `child` was put at the end of the children of the node at
/// `parent`, which gets a child list first if it has none.
pub open spec fn linked(tree: TreeView, parent: int, child: NodeId) -> TreeView {
    let ready = if tree.nodes[parent].children.absent() {
        reserved(tree, parent)
    } else {
        tree
    };
    let list = ready.nodes[parent].children.0 as int;
    TreeView { nodes: ready.nodes, dirs: ready.dirs.update(list, ready.dirs[list].push(child)) }
}

/// The tree after `node` was added as its last node, as a child of the
/// node at `parent` if one is given.
pub open spec fn inserted(tree: TreeView, parent: Option<int>, node: NodeView) -> TreeView {
    let ready = match parent {
        Some(p) => linked(tree, p, NodeId(tree.nodes.len() as u32)),
        None => tree,
    };
    TreeView { nodes: ready.nodes.push(node), dirs: ready.dirs }
}

/// A fresh child list keeps a well-formed tree well-formed.
pub proof fn lemma_reserved(tree: TreeView, n: int)
    requires
        tree.well_formed(),
        0 <= n < tree.nodes.len(),
        tree.nodes[n].children.absent(),
        tree.dirs.len() + 1 < u32::MAX,
    ensures
        reserved(tree, n).well_formed(),
        reserved(tree, n).paths() == tree.paths(),
{
    let after = reserved(tree, n);
    assert(after.paths() =~= tree.paths());
    assert forall|m: int| 0 <= m < after.nodes.len() implies after.children_of(m)
        == tree.children_of(m) by {
        if m == n {
            assert(after.children_of(m) =~= Seq::<NodeId>::empty());
        } else {
            assert(tree.nodes[m].children.absent() || tree.nodes[m].children.0 < tree.dirs.len());
        }
    }
    assert forall|i: int, j: int|
        0 <= i < after.nodes.len() && 0 <= j < after.nodes.len() && after.nodes[i].path
            == after.nodes[j].path implies i == j by {
        assert(tree.nodes[i].path == after.nodes[i].path);
        assert(tree.nodes[j].path == after.nodes[j].path);
    }
    assert forall|m: int| 0 <= m < after.nodes.len() implies (#[trigger] after.nodes[m]).children.absent()
        || after.nodes[m].children.0 < after.dirs.len() by {
        if m != n {
            assert(tree.nodes[m].children.absent() || tree.nodes[m].children.0 < tree.dirs.len());
        }
    }
    assert forall|a: int, b: int|
        0 <= a < after.nodes.len() && 0 <= b < after.nodes.len() && (
        #[trigger] after.nodes[a]).children.present() && after.nodes[a].children == (
        #[trigger] after.nodes[b]).children implies a == b by {
        assert(tree.nodes[a].children.absent() || tree.nodes[a].children.0 < tree.dirs.len());
        assert(tree.nodes[b].children.absent() || tree.nodes[b].children.0 < tree.dirs.len());
    }
    assert forall|d: int, k: int|
        0 <= d < after.dirs.len() && 0 <= k < after.dirs[d].len() implies (
    #[trigger] after.dirs[d][k]).0 < after.nodes.len() by {
        assert(tree.dirs[d][k].0 < tree.nodes.len());
    }
    assert forall|m: int, k: int|
        0 <= m < after.nodes.len() && 0 <= k < after.children_of(m).len() implies (
    #[trigger] after.children_of(m)[k]).0 > m && parent_bytes(
        after.nodes[after.children_of(m)[k].0 as int].path,
    ) == Some(after.nodes[m].path) by {
        assert(tree.children_of(m)[k].0 > m);
        assert(tree.nodes[m].children.absent() || tree.nodes[m].children.0 < tree.dirs.len());
        assert(tree.dirs[tree.nodes[m].children.0 as int][k].0 < tree.nodes.len());
    }
    assert forall|d: int| 0 <= d < after.dirs.len() implies (#[trigger] after.dirs[d]).len()
        <= after.nodes.len() by {
        if d < tree.dirs.len() {
            assert(tree.dirs[d].len() <= tree.nodes.len());
        }
    }
}

/// A new last node, hung below a node that exists, keeps a well-formed tree
/// well-formed.
pub proof fn lemma_inserted(tree: TreeView, parent: Option<int>, node: NodeView)
    requires
        tree.well_formed(),
        tree.has_room(),
        match parent {
            Some(p) => 0 <= p < tree.nodes.len() && parent_bytes(node.path) == Some(
                tree.nodes[p].path,
            ),
            None => true,
        },
        node.children.absent(),
        forall|i: int| 0 <= i < tree.nodes.len() ==> tree.nodes[i].path != node.path,
    ensures
        inserted(tree, parent, node).well_formed(),
        inserted(tree, parent, node).paths() == tree.paths().push(node.path),
        inserted(tree, parent, node).nodes.len() == tree.nodes.len() + 1,
        inserted(tree, parent, node).dirs.len() <= tree.dirs.len() + 1,
{
    let after = inserted(tree, parent, node);
    let id = tree.nodes.len() as int;
    assert(after.paths() =~= tree.paths().push(node.path));
    match parent {
        None => {
            assert forall|m: int| 0 <= m < after.nodes.len() implies after.children_of(m) == (if m
                == id {
                Seq::<NodeId>::empty()
            } else {
                tree.children_of(m)
            }) by {
                if m == id {
                    assert(after.children_of(m) =~= Seq::<NodeId>::empty());
                }
            }
            assert forall|i: int, j: int|
                0 <= i < after.nodes.len() && 0 <= j < after.nodes.len() && after.nodes[i].path
                    == after.nodes[j].path implies i == j by {
                if i < id {
                    assert(tree.nodes[i].path == after.nodes[i].path);
                }
                if j < id {
                    assert(tree.nodes[j].path == after.nodes[j].path);
                }
            }
            assert forall|m: int| 0 <= m < after.nodes.len() implies (
            #[trigger] after.nodes[m]).children.absent() || after.nodes[m].children.0
                < after.dirs.len() by {
                if m < id {
                    assert(tree.nodes[m].children.absent() || tree.nodes[m].children.0
                        < tree.dirs.len());
                }
            }
            assert forall|a: int, b: int|
                0 <= a < after.nodes.len() && 0 <= b < after.nodes.len() && (
                #[trigger] after.nodes[a]).children.present() && after.nodes[a].children == (
                #[trigger] after.nodes[b]).children implies a == b by {
                assert(tree.nodes[a].children == after.nodes[a].children);
                assert(tree.nodes[b].children == after.nodes[b].children);
            }
            assert forall|d: int, k: int|
                0 <= d < after.dirs.len() && 0 <= k < after.dirs[d].len() implies (
            #[trigger] after.dirs[d][k]).0 < after.nodes.len() by {
                assert(tree.dirs[d][k].0 < tree.nodes.len());
            }
            assert forall|m: int, k: int|
                0 <= m < after.nodes.len() && 0 <= k < after.children_of(m).len() implies (
            #[trigger] after.children_of(m)[k]).0 > m && parent_bytes(
                after.nodes[after.children_of(m)[k].0 as int].path,
            ) == Some(after.nodes[m].path) by {
                assert(tree.children_of(m)[k].0 > m);
                assert(tree.nodes[m].children.absent() || tree.nodes[m].children.0
                    < tree.dirs.len());
                assert(tree.dirs[tree.nodes[m].children.0 as int][k].0 < tree.nodes.len());
            }
            assert forall|d: int| 0 <= d < after.dirs.len() implies (
            #[trigger] after.dirs[d]).len() <= after.nodes.len() by {
                assert(tree.dirs[d].len() <= tree.nodes.len());
            }
        },
        Some(p) => {
            let ready = if tree.nodes[p].children.absent() {
                reserved(tree, p)
            } else {
                tree
            };
            if tree.nodes[p].children.absent() {
                lemma_reserved(tree, p);
            }
            assert(ready.well_formed());
            assert(ready.nodes[p].children.absent() || ready.nodes[p].children.0
                < ready.dirs.len());
            let list = ready.nodes[p].children.0 as int;
            assert forall|m: int| 0 <= m < after.nodes.len() implies after.children_of(m) == (if m
                == id {
                Seq::<NodeId>::empty()
            } else if m == p {
                ready.children_of(m).push(NodeId(id as u32))
            } else if ready.nodes[m].children.present() && ready.nodes[m].children.0 == list {
                ready.children_of(m).push(NodeId(id as u32))
            } else {
                ready.children_of(m)
            }) by {
                if m == id {
                    assert(after.children_of(m) =~= Seq::<NodeId>::empty());
                } else {
                    assert(ready.nodes[m].children.absent() || ready.nodes[m].children.0
                        < ready.dirs.len());
                }
            }
            assert forall|i: int, j: int|
                0 <= i < after.nodes.len() && 0 <= j < after.nodes.len() && after.nodes[i].path
                    == after.nodes[j].path implies i == j by {
                if i < id {
                    assert(tree.nodes[i].path == after.nodes[i].path);
                }
                if j < id {
                    assert(tree.nodes[j].path == after.nodes[j].path);
                }
            }
            assert forall|m: int| 0 <= m < after.nodes.len() implies (
            #[trigger] after.nodes[m]).children.absent() || after.nodes[m].children.0
                < after.dirs.len() by {
                if m < id {
                    assert(ready.nodes[m].children.absent() || ready.nodes[m].children.0
                        < ready.dirs.len());
                }
            }
            assert forall|a: int, b: int|
                0 <= a < after.nodes.len() && 0 <= b < after.nodes.len() && (
                #[trigger] after.nodes[a]).children.present() && after.nodes[a].children == (
                #[trigger] after.nodes[b]).children implies a == b by {
                assert(ready.nodes[a].children == after.nodes[a].children);
                assert(ready.nodes[b].children == after.nodes[b].children);
            }
            assert forall|d: int, k: int|
                0 <= d < after.dirs.len() && 0 <= k < after.dirs[d].len() implies (
            #[trigger] after.dirs[d][k]).0 < after.nodes.len() by {
                if d == list && k == ready.dirs[d].len() {
                } else {
                    assert(ready.dirs[d][k].0 < ready.nodes.len());
                }
            }
            assert forall|m: int, k: int|
                0 <= m < after.nodes.len() && 0 <= k < after.children_of(m).len() implies (
            #[trigger] after.children_of(m)[k]).0 > m && parent_bytes(
                after.nodes[after.children_of(m)[k].0 as int].path,
            ) == Some(after.nodes[m].path) by {
                if m != id {
                    assert(ready.nodes[m].children.absent() || ready.nodes[m].children.0
                        < ready.dirs.len());
                    if k < ready.children_of(m).len() {
                        assert(ready.children_of(m)[k].0 > m);
                        assert(ready.dirs[ready.nodes[m].children.0 as int][k].0
                            < ready.nodes.len());
                    } else {
                        assert(ready.nodes[m].children == ready.nodes[p].children);
                    }
                }
            }
            assert forall|d: int| 0 <= d < after.dirs.len() implies (
            #[trigger] after.dirs[d]).len() <= after.nodes.len() by {
                assert(ready.dirs[d].len() <= ready.nodes.len());
            }
        },
    }
}

impl TreeView {
    /// This tree came from `old` by steps that add nodes and child lists
    /// and take nothing away: the nodes of `old` are still there, with
    /// their paths, and those that had a child list kept it.
    pub open spec fn grown_from(self, old: TreeView) -> bool {
        &&& old.nodes.len() <= self.nodes.len()
        &&& forall|i: int|
            0 <= i < old.nodes.len() ==> (#[trigger] self.nodes[i]).path == old.nodes[i].path && (
            old.nodes[i].children.present() ==> self.nodes[i].children == old.nodes[i].children)
    }
}

/// The node at `i` wears the mark of not having been met by the crawl
/// that is under way.
pub open spec fn wears_mark(tree: TreeView, i: int) -> bool {
    tree.nodes[i].flags & MAYBE_DELETED == MAYBE_DELETED
}

/// No node wears the mark of a crawl.
pub open spec fn unmarked(tree: TreeView) -> bool {
    forall|i: int| 0 <= i < tree.nodes.len() ==> !#[trigger] wears_mark(tree, i)
}

impl TreeView {
    /// This tree came from `old` by steps that leave the marks of a crawl
    /// and the children of every node as they were: nodes and children
    /// may have come on top, without a mark.
    pub open spec fn keeps(self, old: TreeView) -> bool {
        &&& old.nodes.len() <= self.nodes.len()
        &&& forall|i: int|
            0 <= i < old.nodes.len() ==> (#[trigger] wears_mark(self, i)) == wears_mark(old, i)
        &&& forall|i: int| old.nodes.len() <= i < self.nodes.len() ==> !#[trigger] wears_mark(self, i)
        &&& forall|i: int, k: int|
            0 <= i < old.nodes.len() && 0 <= k < old.children_of(i).len() ==> #[trigger] child_kept(
                old,
                self,
                i,
                k,
            )
    }
}

/// The `k`th child of the node at `i` is in `new` what it is in `old`.
pub open spec fn child_kept(old: TreeView, new: TreeView, i: int, k: int) -> bool {
    k < new.children_of(i).len() && new.children_of(i)[k] == old.children_of(i)[k]
}

/// A tree without marks that keeps its marks has none afterwards: outside
/// a crawl no step of the tree sets a mark.
pub proof fn lemma_unmarked_kept(old: TreeView, new: TreeView)
    requires
        unmarked(old),
        new.keeps(old),
    ensures
        unmarked(new),
{
    assert forall|i: int| 0 <= i < new.nodes.len() implies !#[trigger] wears_mark(new, i) by {
        if i < old.nodes.len() {
            assert(wears_mark(new, i) == wears_mark(old, i));
        }
    }
}

/// What setting and clearing flags does to the mark of a crawl.
pub proof fn lemma_mark_bits(flags: u32)
    ensures
        (flags | RECURSIVE) & MAYBE_DELETED == flags & MAYBE_DELETED,
        (flags & !MAYBE_DELETED) & MAYBE_DELETED == 0,
        (flags | MAYBE_DELETED) & MAYBE_DELETED == MAYBE_DELETED,
        RECURSIVE & MAYBE_DELETED == 0,
        WATCH_CHILDREN & MAYBE_DELETED == 0,
        0u32 & MAYBE_DELETED == 0,
{
    assert((flags | 6u32) & 1u32 == flags & 1u32) by (bit_vector);
    assert((flags & !1u32) & 1u32 == 0u32) by (bit_vector);
    assert((flags | 1u32) & 1u32 == 1u32) by (bit_vector);
    assert(6u32 & 1u32 == 0u32) by (bit_vector);
    assert(2u32 & 1u32 == 0u32) by (bit_vector);
    assert(0u32 & 1u32 == 0u32) by (bit_vector);
}

/// A tree of the same shape with the same marks keeps them.
pub proof fn lemma_same_shape_keeps(tree: TreeView, other: TreeView)
    requires
        tree.same_shape(other),
        forall|i: int| 0 <= i < tree.nodes.len() ==> wears_mark(other, i) == wears_mark(tree, i),
    ensures
        other.keeps(tree),
{
    assert forall|i: int, k: int|
        0 <= i < tree.nodes.len() && 0 <= k < tree.children_of(i).len() implies #[trigger] child_kept(tree, other, i, k) by {
        assert(tree.nodes[i].children == other.nodes[i].children);
    }
}

/// What keeps what kept.
pub proof fn lemma_keeps_twice(first: TreeView, second: TreeView, third: TreeView)
    requires
        second.keeps(first),
        third.keeps(second),
    ensures
        third.keeps(first),
{
    assert forall|i: int| 0 <= i < first.nodes.len() implies (#[trigger] wears_mark(third, i))
        == wears_mark(first, i) by {
        assert(wears_mark(second, i) == wears_mark(first, i));
        assert(wears_mark(third, i) == wears_mark(second, i));
    }
    assert forall|i: int| first.nodes.len() <= i < third.nodes.len() implies !#[trigger] wears_mark(
        third,
        i,
    ) by {
        if i < second.nodes.len() {
            assert(!wears_mark(second, i));
            assert(wears_mark(third, i) == wears_mark(second, i));
        } else {
            assert(!wears_mark(third, i));
        }
    }
    assert forall|i: int, k: int|
        0 <= i < first.nodes.len() && 0 <= k < first.children_of(i).len() implies #[trigger] child_kept(first, third, i, k) by {
        assert(child_kept(first, second, i, k));
        assert(child_kept(second, third, i, k));
    }
}

/// A fresh child list keeps the marks and the children.
pub proof fn lemma_reserved_keeps(tree: TreeView, n: int)
    requires
        tree.well_formed(),
        0 <= n < tree.nodes.len(),
        tree.nodes[n].children.absent(),
        tree.dirs.len() + 1 < u32::MAX,
    ensures
        reserved(tree, n).keeps(tree),
{
    let after = reserved(tree, n);
    assert forall|i: int, k: int|
        0 <= i < tree.nodes.len() && 0 <= k < tree.children_of(i).len() implies #[trigger] child_kept(tree, after, i, k) by {
        assert(tree.nodes[i].children.absent() || tree.nodes[i].children.0 < tree.dirs.len());
    }
}

/// A new last node without a mark keeps the marks and the children.
pub proof fn lemma_inserted_keeps(tree: TreeView, parent: Option<int>, node: NodeView)
    requires
        tree.well_formed(),
        tree.has_room(),
        match parent {
            Some(p) => 0 <= p < tree.nodes.len(),
            None => true,
        },
        node.flags & MAYBE_DELETED != MAYBE_DELETED,
    ensures
        inserted(tree, parent, node).keeps(tree),
{
    let after = inserted(tree, parent, node);
    match parent {
        None => {
            assert forall|i: int, k: int|
                0 <= i < tree.nodes.len() && 0 <= k < tree.children_of(i).len() implies #[trigger] child_kept(tree, after, i, k) by {
                assert(after.nodes[i] == tree.nodes[i]);
            }
        },
        Some(p) => {
            let ready = if tree.nodes[p].children.absent() {
                reserved(tree, p)
            } else {
                tree
            };
            if tree.nodes[p].children.absent() {
                lemma_reserved(tree, p);
                lemma_reserved_keeps(tree, p);
            }
            assert(ready.nodes[p].children.absent() || ready.nodes[p].children.0
                < ready.dirs.len());
            assert forall|i: int| 0 <= i < tree.nodes.len() implies (#[trigger] wears_mark(after, i))
                == wears_mark(tree, i) by {
                assert(after.nodes[i].flags == tree.nodes[i].flags);
            }
            assert forall|i: int, k: int|
                0 <= i < tree.nodes.len() && 0 <= k < tree.children_of(i).len() implies #[trigger] child_kept(tree, after, i, k) by {
                assert(tree.nodes[i].children.absent() || tree.nodes[i].children.0
                    < tree.dirs.len());
                assert(ready.nodes[i].children.absent() || ready.nodes[i].children.0
                    < ready.dirs.len());
                if tree.nodes[p].children.absent() {
                    assert(ready.children_of(i)[k] == tree.children_of(i)[k]);
                }
            }
        },
    }
}

} // verus!
