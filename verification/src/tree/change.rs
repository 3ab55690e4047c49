//! What applying a change to the tree, or adding a path to it, gives.

use crate::events::{EventType, EventView};
use crate::metadata::Metadata;
use crate::path::{is_below, lemma_order_total, lemma_subtree_together, parent_bytes, path_lt};
use crate::pending::{
    ascending, ChangeView, MARK_RECURSIVE, NEEDS_RECURSIVE_CRAWL, ORIGIN_WATCHER,
};
use crate::tree::model::{
    inserted, lemma_inserted, lemma_inserted_keeps, lemma_keeps_twice, lemma_mark_bits,
    lemma_reserved_keeps, lemma_same_shape, lemma_same_shape_keeps, lemma_with_metas, reserved,
    NodeView, TreeView,
};
use crate::tree::sweep::{delete_of, deleted, lemma_swept_len, lemma_swept_marks, swept};
use crate::tree::{change_kind, node_meta, DirId, NodeId, NodeMeta, RECURSIVE, WATCH_CHILDREN};
use vstd::prelude::*;

verus! {

/// Every bit of `mask` is set in `bits`.
pub open spec fn has(bits: u32, mask: u32) -> bool {
    bits & mask == mask
}

/// The flags of a node after a change with `change_flags` has reached it.
pub open spec fn marked_flags(flags: u32, change_flags: u32) -> u32 {
    if has(change_flags, MARK_RECURSIVE) {
        flags | RECURSIVE
    } else {
        flags
    }
}

/// A change reaches the node at `n`, whose path exists with metadata
/// `meta`. The node takes the new metadata and inode. A changed inode, or
/// a hint from the kernel, makes a file count as modified whatever its time
/// and size. Gives the tree, the events, and whether what lies below the
/// node has to be crawled.
pub open spec fn refreshed(tree: TreeView, n: int, change: ChangeView, meta: Metadata) -> (
    TreeView,
    Seq<EventView>,
    bool,
) {
    let node = tree.nodes[n];
    let flags = marked_flags(node.flags, change.flags);
    let inode_changed = meta.inode != node.inode;
    let kind = change_kind(
        node.meta,
        node_meta(meta),
        inode_changed || has(change.flags, ORIGIN_WATCHER),
    );
    let events = match kind {
        Some(ty) => seq![EventView { path: change.path, ty }],
        None => Seq::empty(),
    };
    let recursive = has(change.flags, NEEDS_RECURSIVE_CRAWL) || inode_changed || kind == Some(
        EventType::Create,
    );
    let watched = has(flags, WATCH_CHILDREN);
    let updated = tree.with_node(
        n,
        NodeView { meta: node_meta(meta), inode: meta.inode, flags, ..node },
    );
    let after = if meta.is_dir && node.children.absent() && meta.size != 0 && watched {
        reserved(updated, n)
    } else {
        updated
    };
    (after, events, recursive && watched)
}

/// A change reaches the node at `n`, whose path is gone. The node is
/// marked as deleted. A file gives one `Delete`; below a directory
/// everything is marked, with a `Delete` for every file.
pub open spec fn removed(tree: TreeView, n: int, change: ChangeView) -> (TreeView, Seq<EventView>) {
    let node = tree.nodes[n];
    let gone = tree.with_node(
        n,
        NodeView { meta: NodeMeta::Deleted, flags: marked_flags(node.flags, change.flags), ..node },
    );
    match node.meta {
        NodeMeta::Dir => deleted(gone, n),
        NodeMeta::File { .. } => (gone, seq![delete_of(change.path)]),
        NodeMeta::Deleted => (gone, Seq::empty()),
    }
}

/// A change names a path that the tree does not know, which exists with
/// metadata `meta` below the node at `parent`. The path gets a node as the
/// last child of its parent. It is watched recursively if the change says
/// so or the parent is. A file gives a `Create`; a recursively watched
/// directory that is not empty gets a child list. Gives the tree, the
/// events, and whether the new node is watched recursively.
pub open spec fn discovered(tree: TreeView, parent: int, change: ChangeView, meta: Metadata) -> (
    TreeView,
    Seq<EventView>,
    bool,
) {
    let recursive = has(change.flags, MARK_RECURSIVE) || has(tree.nodes[parent].flags, RECURSIVE);
    let node = NodeView {
        path: change.path,
        meta: node_meta(meta),
        inode: meta.inode,
        flags: if recursive {
            RECURSIVE
        } else {
            0
        },
        children: DirId(u32::MAX),
    };
    let grown = inserted(tree, Some(parent), node);
    if !meta.is_dir {
        (grown, seq![EventView { path: change.path, ty: EventType::Create }], recursive)
    } else if recursive && meta.size != 0 {
        (reserved(grown, tree.nodes.len() as int), Seq::empty(), recursive)
    } else {
        (grown, Seq::empty(), recursive)
    }
}

/// The node that stands for the directory that holds `path`, if there is
/// one.
pub open spec fn parent_of(tree: TreeView, path: Seq<u8>) -> Option<int> {
    match parent_bytes(path) {
        Some(parent) => tree.find(parent),
        None => None,
    }
}

/// A change is applied to the tree, given what a `stat` of its path found.
/// Gives the tree, the events, the node of the path (none for a path that
/// is gone and was not known, or whose parent is not known), and whether
/// what lies below the path has to be crawled.
pub open spec fn applied(tree: TreeView, change: ChangeView, meta: Option<Metadata>) -> (
    TreeView,
    Seq<EventView>,
    NodeId,
    bool,
) {
    match (tree.find(change.path), meta) {
        (Some(n), Some(meta)) => {
            let result = refreshed(tree, n, change, meta);
            (result.0, result.1, NodeId(n as u32), result.2)
        },
        (Some(n), None) => {
            let result = removed(tree, n, change);
            (result.0, result.1, NodeId(n as u32), true)
        },
        (None, None) => (tree, Seq::empty(), NodeId(u32::MAX), true),
        (None, Some(meta)) => match parent_of(tree, change.path) {
            None => (tree, Seq::empty(), NodeId(u32::MAX), true),
            Some(parent) => {
                let result = discovered(tree, parent, change, meta);
                (result.0, result.1, NodeId(tree.nodes.len() as u32), result.2)
            },
        },
    }
}

/// A path is added to the tree on the caller's word, as a root or as what
/// a first crawl below a root found, given what a `stat` of it found. A
/// path that the tree knows is only taken where it is to be watched
/// recursively, and then marked so. A path that is gone is not added, nor
/// is a root that is no directory, nor a path below a root whose parent
/// the tree does not know. A new node is marked as recursive, or, for a
/// root that is not, as one whose children are watched; a directory that
/// is watched and not empty gets a child list.
pub open spec fn added(
    tree: TreeView,
    path: Seq<u8>,
    recursive: bool,
    root: bool,
    meta: Option<Metadata>,
) -> (TreeView, Option<NodeId>) {
    match tree.find(path) {
        Some(n) => {
            let node = tree.nodes[n];
            if !recursive || (root && !(node.meta is Dir)) {
                (tree, None)
            } else {
                (
                    tree.with_node(n, NodeView { flags: node.flags | RECURSIVE, ..node }),
                    Some(NodeId(n as u32)),
                )
            }
        },
        None => match meta {
            None => (tree, None),
            Some(meta) => {
                let parent = parent_of(tree, path);
                if (root && !meta.is_dir) || (parent.is_none() && !root) {
                    (tree, None)
                } else {
                    let node = NodeView {
                        path,
                        meta: node_meta(meta),
                        inode: meta.inode,
                        flags: if recursive {
                            RECURSIVE
                        } else if root {
                            WATCH_CHILDREN
                        } else {
                            0
                        },
                        children: DirId(u32::MAX),
                    };
                    let grown = inserted(tree, parent, node);
                    let after = if meta.is_dir && (recursive || root) && meta.size != 0 {
                        reserved(grown, tree.nodes.len() as int)
                    } else {
                        grown
                    };
                    (after, Some(NodeId(tree.nodes.len() as u32)))
                }
            },
        },
    }
}

/// Applying a change takes nothing away from the tree, and the node it
/// gives is a node of the tree.
pub proof fn lemma_applied(tree: TreeView, change: ChangeView, meta: Option<Metadata>)
    requires
        tree.well_formed(),
        tree.has_room(),
    ensures
        applied(tree, change, meta).0.grown_from(tree),
        applied(tree, change, meta).2.present() ==> applied(tree, change, meta).2.0 < applied(
            tree,
            change,
            meta,
        ).0.nodes.len(),
{
    let after = applied(tree, change, meta).0;
    match (tree.find(change.path), meta) {
        (Some(n), Some(meta)) => {},
        (Some(n), None) => {},
        (None, None) => {},
        (None, Some(meta)) => {
            match parent_of(tree, change.path) {
                None => {},
                Some(parent) => {
                    assert(tree.nodes[parent].children.absent() || tree.nodes[parent].children.0
                        < tree.dirs.len());
                },
            }
        },
    }
}

/// Adding a path takes nothing away from the tree, and the node it gives
/// is a node of the tree.
pub proof fn lemma_added(
    tree: TreeView,
    path: Seq<u8>,
    recursive: bool,
    root: bool,
    meta: Option<Metadata>,
)
    requires
        tree.well_formed(),
        tree.has_room(),
    ensures
        added(tree, path, recursive, root, meta).0.grown_from(tree),
        match added(tree, path, recursive, root, meta).1 {
            Some(id) => id.0 < added(tree, path, recursive, root, meta).0.nodes.len(),
            None => true,
        },
{
}

/// The first place at or after `from` whose change does not lie below
/// `dir`.
pub open spec fn skip_below(changes: Seq<ChangeView>, dir: Seq<u8>, from: int) -> int
    decreases changes.len() - from,
{
    if 0 <= from < changes.len() && dir.len() > 0 && is_below(changes[from].path, dir) {
        skip_below(changes, dir, from + 1)
    } else {
        from
    }
}

/// The next change of a transaction is applied to the tree, given
/// what a `stat` of its path found. Where what lies below the path has
/// to be crawled, the changes that follow and lie below it are passed
/// over: the crawl sees to them. Gives the tree, the events, the number of
/// changes that are done with, and the directory to crawl, if one is due.
pub open spec fn transacted(
    tree: TreeView,
    changes: Seq<ChangeView>,
    position: int,
    meta: Option<Metadata>,
) -> (TreeView, Seq<EventView>, int, Option<NodeId>) {
    let change = changes[position];
    let found = applied(tree, change, meta);
    if found.3 {
        (
            found.0,
            found.1,
            skip_below(changes, change.path, position + 1),
            if found.2.present() && found.0.nodes[found.2.0 as int].meta is Dir {
                Some(found.2)
            } else {
                None
            },
        )
    } else {
        (found.0, found.1, position + 1, None)
    }
}

/// A path that exists gets a node when a change for it is applied, if the
/// tree knows the path or the directory that holds it. The change adds
/// that node at most, and the nodes that were there keep their paths.
pub proof fn lemma_applied_mirrors(tree: TreeView, change: ChangeView, meta: Metadata)
    requires
        tree.well_formed(),
        tree.has_room(),
        tree.find(change.path).is_some() || parent_of(tree, change.path).is_some(),
    ensures
        applied(tree, change, Some(meta)).2.present(),
        applied(tree, change, Some(meta)).0.nodes[applied(
            tree,
            change,
            Some(meta),
        ).2.0 as int].path == change.path,
        applied(tree, change, Some(meta)).0.nodes[applied(
            tree,
            change,
            Some(meta),
        ).2.0 as int].meta == node_meta(meta),
        applied(tree, change, Some(meta)).0.nodes.len() <= tree.nodes.len() + 1,
        forall|i: int|
            tree.nodes.len() <= i < applied(tree, change, Some(meta)).0.nodes.len() ==> applied(
                tree,
                change,
                Some(meta),
            ).0.nodes[i].path == change.path,
{
    lemma_applied(tree, change, Some(meta));
    match tree.find(change.path) {
        Some(n) => {},
        None => {
            let parent = parent_of(tree, change.path).unwrap();
            assert(tree.nodes[parent].children.absent() || tree.nodes[parent].children.0
                < tree.dirs.len());
        },
    }
}

/// A path that is gone leaves its node behind, marked as deleted: nodes
/// are never taken out of the tree.
pub proof fn lemma_applied_gone(tree: TreeView, change: ChangeView)
    requires
        tree.well_formed(),
        tree.has_room(),
        tree.find(change.path).is_some(),
    ensures
        applied(tree, change, None).0.nodes.len() == tree.nodes.len(),
        applied(tree, change, None).2.0 == tree.find(change.path).unwrap(),
        applied(tree, change, None).0.nodes[tree.find(change.path).unwrap()].meta
            is Deleted,
        applied(tree, change, None).3,
{
    let n = tree.find(change.path).unwrap();
    let node = tree.nodes[n];
    let gone = tree.with_node(
        n,
        NodeView {
            meta: NodeMeta::Deleted,
            flags: marked_flags(node.flags, change.flags),
            ..node
        },
    );
    match node.meta {
        NodeMeta::Dir => {
            lemma_swept_marks(gone, gone.metas(), n);
        },
        _ => {},
    }
}

/// What a first crawl hands to the tree gets a node, if it exists and the
/// tree knows the directory that holds it; the tree grows by that node
/// only, and the nodes that were there keep their paths. So after the
/// crawl the tree holds a node for every entry that was handed to it, and
/// no others.
pub proof fn lemma_added_mirrors(tree: TreeView, path: Seq<u8>, recursive: bool, meta: Metadata)
    requires
        tree.well_formed(),
        tree.has_room(),
        tree.find(path).is_none(),
        parent_of(tree, path).is_some(),
    ensures
        added(tree, path, recursive, false, Some(meta)).1 == Some(NodeId(tree.nodes.len() as u32)),
        added(tree, path, recursive, false, Some(meta)).0.nodes.len() == tree.nodes.len() + 1,
        added(tree, path, recursive, false, Some(meta)).0.nodes[tree.nodes.len() as int].path
            == path,
        added(tree, path, recursive, false, Some(meta)).0.nodes[tree.nodes.len() as int].meta
            == node_meta(meta),
        forall|i: int|
            0 <= i < tree.nodes.len() ==> added(
                tree,
                path,
                recursive,
                false,
                Some(meta),
            ).0.nodes[i].path == tree.nodes[i].path,
{
    let parent = parent_of(tree, path).unwrap();
    assert(tree.nodes[parent].children.absent() || tree.nodes[parent].children.0
        < tree.dirs.len());
}

/// The changes that are passed over after a change lie below its path, and
/// the first change that is not passed over does not.
pub proof fn lemma_skip_below(changes: Seq<ChangeView>, dir: Seq<u8>, from: int)
    requires
        0 <= from <= changes.len(),
    ensures
        from <= skip_below(changes, dir, from) <= changes.len(),
        forall|i: int|
            from <= i < skip_below(changes, dir, from) ==> is_below(
                #[trigger] changes[i].path,
                dir,
            ),
        skip_below(changes, dir, from) < changes.len() ==> dir.len() == 0 || !is_below(
            changes[skip_below(changes, dir, from)].path,
            dir,
        ),
    decreases changes.len() - from,
{
    if from < changes.len() && dir.len() > 0 && is_below(changes[from].path, dir) {
        lemma_skip_below(changes, dir, from + 1);
    }
}

/// Applying a change leaves the marks of a crawl and the children of
/// every node as they were: what comes on top wears no mark.
pub proof fn lemma_applied_keeps(tree: TreeView, change: ChangeView, meta: Option<Metadata>)
    requires
        tree.well_formed(),
        tree.has_room(),
    ensures
        applied(tree, change, meta).0.keeps(tree),
{
    match (tree.find(change.path), meta) {
        (Some(n), Some(meta)) => {
            let node = tree.nodes[n];
            let flags = marked_flags(node.flags, change.flags);
            let updated = tree.with_node(
                n,
                NodeView { meta: node_meta(meta), inode: meta.inode, flags, ..node },
            );
            lemma_mark_bits(node.flags);
            lemma_same_shape(tree, updated);
            lemma_same_shape_keeps(tree, updated);
            if refreshed(tree, n, change, meta).0 != updated {
                lemma_reserved_keeps(updated, n);
                lemma_keeps_twice(tree, updated, reserved(updated, n));
            }
        },
        (Some(n), None) => {
            let node = tree.nodes[n];
            let gone = tree.with_node(
                n,
                NodeView {
                    meta: NodeMeta::Deleted,
                    flags: marked_flags(node.flags, change.flags),
                    ..node
                },
            );
            lemma_mark_bits(node.flags);
            lemma_same_shape(tree, gone);
            lemma_same_shape_keeps(tree, gone);
            let after = deleted(gone, n).0;
            lemma_swept_len(gone, gone.metas(), n);
            lemma_with_metas(gone, gone.metas(), swept(gone, gone.metas(), n).0);
            lemma_same_shape_keeps(gone, after);
            lemma_keeps_twice(tree, gone, after);
        },
        (None, None) => {
            lemma_same_shape_keeps(tree, tree);
        },
        (None, Some(meta)) => {
            match parent_of(tree, change.path) {
                None => {
                    lemma_same_shape_keeps(tree, tree);
                },
                Some(parent) => {
                    let recursive = has(change.flags, MARK_RECURSIVE) || has(
                        tree.nodes[parent].flags,
                        RECURSIVE,
                    );
                    let node = NodeView {
                        path: change.path,
                        meta: node_meta(meta),
                        inode: meta.inode,
                        flags: if recursive {
                            RECURSIVE
                        } else {
                            0
                        },
                        children: DirId(u32::MAX),
                    };
                    lemma_mark_bits(0);
                    let grown = inserted(tree, Some(parent), node);
                    lemma_inserted_keeps(tree, Some(parent), node);
                    if discovered(tree, parent, change, meta).0 != grown {
                        lemma_inserted(tree, Some(parent), node);
                        lemma_reserved_keeps(grown, tree.nodes.len() as int);
                        lemma_keeps_twice(tree, grown, reserved(grown, tree.nodes.len() as int));
                    }
                },
            }
        },
    }
}

/// Adding a path leaves the marks of a crawl and the children of every
/// node as they were: what comes on top wears no mark.
pub proof fn lemma_added_keeps(
    tree: TreeView,
    path: Seq<u8>,
    recursive: bool,
    root: bool,
    meta: Option<Metadata>,
)
    requires
        tree.well_formed(),
        tree.has_room(),
    ensures
        added(tree, path, recursive, root, meta).0.keeps(tree),
{
    lemma_mark_bits(0);
    let after = added(tree, path, recursive, root, meta).0;
    match tree.find(path) {
        Some(n) => {
            lemma_mark_bits(tree.nodes[n].flags);
            lemma_same_shape_keeps(tree, after);
        },
        None => {
            if after == tree {
                lemma_same_shape_keeps(tree, tree);
            } else {
                let meta = meta.unwrap();
                let parent = parent_of(tree, path);
                let node = NodeView {
                    path,
                    meta: node_meta(meta),
                    inode: meta.inode,
                    flags: if recursive {
                        RECURSIVE
                    } else if root {
                        WATCH_CHILDREN
                    } else {
                        0
                    },
                    children: DirId(u32::MAX),
                };
                let grown = inserted(tree, parent, node);
                lemma_inserted_keeps(tree, parent, node);
                if after != grown {
                    lemma_inserted(tree, parent, node);
                    lemma_reserved_keeps(grown, tree.nodes.len() as int);
                    lemma_keeps_twice(tree, grown, after);
                }
            }
        },
    }
}

/// In a list of changes in ascending order, the changes that are passed
/// over after a change are all the later changes that lie below its path:
/// what lies below a path stands together, right behind it.
pub proof fn lemma_passed_over(changes: Seq<ChangeView>, at: int)
    requires
        ascending(changes),
        0 <= at < changes.len(),
        changes[at].path.len() > 0,
    ensures
        forall|j: int|
            at < j < changes.len() ==> (is_below(#[trigger] changes[j].path, changes[at].path)
                <==> j < skip_below(changes, changes[at].path, at + 1)),
{
    let dir = changes[at].path;
    let end = skip_below(changes, dir, at + 1);
    lemma_skip_below(changes, dir, at + 1);
    assert forall|j: int| at < j < changes.len() implies (is_below(
        #[trigger] changes[j].path,
        dir,
    ) <==> j < end) by {
        if j > end && is_below(changes[j].path, dir) {
            let outside = changes[end].path;
            assert(path_lt(dir, outside));
            lemma_order_total(dir, outside);
            lemma_subtree_together(dir, changes[j].path, outside);
            assert(path_lt(outside, changes[j].path));
            lemma_order_total(outside, changes[j].path);
        }
    }
}

/// What a change reports of a file that is on disk. A file that the tree
/// did not know, below a directory that it knows, is created. A file that
/// the tree knows is reported as the step from what its node remembered to
/// what the disk holds says: created where the node was a directory or
/// deleted, modified where time or size differ, or where the inode
/// changed or the kernel gave the hint. Afterwards the node holds what the
/// disk holds.
pub proof fn lemma_applied_reports(tree: TreeView, change: ChangeView, meta: Metadata)
    requires
        tree.well_formed(),
        tree.has_room(),
        !meta.is_dir,
        tree.find(change.path).is_some() || parent_of(tree, change.path).is_some(),
    ensures
        applied(tree, change, Some(meta)).1 == match tree.find(change.path) {
            None => seq![EventView { path: change.path, ty: EventType::Create }],
            Some(n) => match change_kind(
                tree.nodes[n].meta,
                node_meta(meta),
                meta.inode != tree.nodes[n].inode || has(change.flags, ORIGIN_WATCHER),
            ) {
                Some(ty) => seq![EventView { path: change.path, ty }],
                None => Seq::empty(),
            },
        },
        applied(tree, change, Some(meta)).0.nodes[applied(
            tree,
            change,
            Some(meta),
        ).2.0 as int].meta == node_meta(meta),
        applied(tree, change, Some(meta)).0.nodes[applied(
            tree,
            change,
            Some(meta),
        ).2.0 as int].inode == meta.inode,
{
    lemma_applied(tree, change, Some(meta));
    match tree.find(change.path) {
        Some(n) => {},
        None => {
            let parent = parent_of(tree, change.path).unwrap();
            assert(tree.nodes[parent].children.absent() || tree.nodes[parent].children.0
                < tree.dirs.len());
        },
    }
}

} // verus!
