//! The in-memory mirror of the watched directory trees.
//!
//! The tree itself and the steps that change it are in this module. What
//! each step gives is said over plain values, in the modules below: `model`
//! holds the tree as plain values, `sweep` the marking of what is gone,
//! `change` the applying of changes, and `crawl` the steps of a crawl.

pub mod change;
pub mod crawl;
pub mod model;
pub mod sweep;

use crate::children::{child_ids, children_as_slice, children_len, children_new, children_push};
use crate::config::Filter;
use crate::events::{Event, EventType, EventView};
use crate::flags::Flags;
use crate::index::{file, index_new, index_slots, indexes, lookup, Keyed, PathIndex};
use crate::metadata::{Metadata, Timestamp};
use crate::path::{is_below, parent_bytes, CanonicalPathBuf};
use crate::pending::{
    all_slots, ascending, change_views, ChangeView, PendingChange, PendingChanges, MARK_RECURSIVE,
    NEEDS_RECURSIVE_CRAWL, ORIGIN_WATCHER,
};
use crate::tree::change::{
    added, applied, has, lemma_added, lemma_added_keeps, lemma_applied, lemma_applied_keeps,
    lemma_passed_over, marked_flags, parent_of, skip_below, transacted,
};
use crate::tree::crawl::{
    crawl_entered, crawl_frame_ok, crawl_frames_ok, crawl_started, flagged, lemma_flagged,
    lemma_frames_grown, lemma_marks_kept, lemma_marks_met, lemma_marks_pushed,
    lemma_no_frames_no_marks, lemma_unflagged, lemma_unwound_all, lemma_unwound_marks,
    marks_on_frames, resolved, settled, unflagged, unwound,
};
use crate::tree::model::{
    event_views, inserted, lemma_inserted, lemma_reserved, lemma_same_shape, lemma_with_metas,
    reserved, unmarked, NodeView, TreeView,
};
use crate::tree::sweep::{
    delete_of, deleted, finish, frame_ok, lemma_sweep_len, lemma_sweep_shape, lemma_swept_len,
    sweep, swept,
};
use ecow::EcoVec;
use vstd::prelude::*;

verus! {

/// Set on the children of a directory while it is crawled, and taken off
/// each child that the crawl meets: what still wears it afterwards is gone.
pub const MAYBE_DELETED: u32 = 1;

/// The children of this node are watched. Always set for recursive watches;
/// for others only on the top directory.
pub const WATCH_CHILDREN: u32 = 0b10;

/// This node is watched recursively. Holds the bit of `WATCH_CHILDREN`.
pub const RECURSIVE: u32 = 0b110;

/// What the tree remembers of a path.
#[derive(Debug, Clone, Copy, PartialEq, Eq, Structural)]
pub enum NodeMeta {
    Dir,
    File { mtime: Timestamp, size: usize },
    Deleted,
}

/// What a node remembers of a path with metadata `meta`.
pub open spec fn node_meta(meta: Metadata) -> NodeMeta {
    if meta.is_dir {
        NodeMeta::Dir
    } else {
        NodeMeta::File { mtime: meta.mtime, size: meta.size }
    }
}

/// The event that a node's change from `old` to `new` amounts to. Only
/// files give events: a file that stays a file was modified, unless time
/// and size are the same and `skip_check` does not ask to report it anyway;
/// a file that appears was created, one that disappears was deleted.
pub open spec fn change_kind(old: NodeMeta, new: NodeMeta, skip_check: bool) -> Option<EventType> {
    match (old, new) {
        (NodeMeta::File { mtime, size }, NodeMeta::File { mtime: new_mtime, size: new_size }) => {
            if !skip_check && mtime == new_mtime && size == new_size {
                None
            } else {
                Some(EventType::Modified)
            }
        },
        (NodeMeta::Deleted, NodeMeta::File { .. }) => Some(EventType::Create),
        (NodeMeta::Dir, NodeMeta::File { .. }) => Some(EventType::Create),
        (NodeMeta::File { .. }, NodeMeta::Deleted) => Some(EventType::Delete),
        (NodeMeta::File { .. }, NodeMeta::Dir) => Some(EventType::Delete),
        _ => None,
    }
}

impl NodeMeta {
    /// Whether this is a directory.
    pub fn is_dir(&self) -> (dir: bool)
        ensures
            dir == (*self is Dir),
    {
        match self {
            NodeMeta::Dir => true,
            _ => false,
        }
    }

    /// Whether this is a file.
    pub fn is_file(&self) -> (file: bool)
        ensures
            file == (*self is File),
    {
        match self {
            NodeMeta::File { .. } => true,
            _ => false,
        }
    }

    /// What a node remembers of a path with metadata `meta`.
    pub fn new(meta: &Metadata) -> (node: NodeMeta)
        ensures
            node == node_meta(*meta),
    {
        if meta.is_dir {
            NodeMeta::Dir
        } else {
            NodeMeta::File { mtime: meta.mtime, size: meta.size }
        }
    }

    /// The event that the change from this to `new` amounts to.
    pub fn change_type(&self, new: &NodeMeta, skip_check: bool) -> (kind: Option<EventType>)
        ensures
            kind == change_kind(*self, *new, skip_check),
    {
        match (self, new) {
            (
                NodeMeta::File { mtime, size },
                NodeMeta::File { mtime: new_mtime, size: new_size },
            ) => {
                if !skip_check && mtime.secs == new_mtime.secs && mtime.nanos == new_mtime.nanos
                    && *size == *new_size {
                    None
                } else {
                    Some(EventType::Modified)
                }
            },
            (NodeMeta::Deleted, NodeMeta::File { .. }) => Some(EventType::Create),
            (NodeMeta::Dir, NodeMeta::File { .. }) => Some(EventType::Create),
            (NodeMeta::File { .. }, NodeMeta::Deleted) => Some(EventType::Delete),
            (NodeMeta::File { .. }, NodeMeta::Dir) => Some(EventType::Delete),
            _ => None,
        }
    }
}

/// The number of a child list, or none.
#[derive(PartialEq, Eq, Structural, PartialOrd, Clone, Copy, Hash, Debug)]
pub struct DirId(pub u32);

impl DirId {
    /// The id stands for no list.
    pub open spec fn absent(self) -> bool {
        self.0 == u32::MAX
    }

    /// The id is the id of a list.
    pub open spec fn present(self) -> bool {
        self.0 != u32::MAX
    }

    /// The id that stands for no list.
    pub fn none() -> (id: DirId)
        ensures
            id.0 == u32::MAX,
    {
        DirId(u32::MAX)
    }

    /// The id of the list at `index`.
    pub fn new(index: usize) -> (id: DirId)
        requires
            index < u32::MAX,
        ensures
            id.0 == index,
    {
        DirId(index as u32)
    }

    /// Whether this stands for no list.
    #[verifier::when_used_as_spec(absent)]
    pub fn is_none(self) -> (none: bool)
        ensures
            none == self.absent(),
    {
        self.0 == u32::MAX
    }

    /// Whether this is the id of a list.
    #[verifier::when_used_as_spec(present)]
    pub fn is_some(self) -> (some: bool)
        ensures
            some == self.present(),
    {
        self.0 != u32::MAX
    }

    /// The place of the list among the lists.
    pub fn idx(self) -> (index: usize)
        requires
            self.is_some(),
        ensures
            index == self.0,
    {
        self.0 as usize
    }
}

/// The number of a node, or none.
#[derive(PartialEq, Eq, Structural, PartialOrd, Clone, Copy, Hash, Debug)]
pub struct NodeId(pub u32);

impl NodeId {
    /// The id is the id of a node.
    pub open spec fn present(self) -> bool {
        self.0 != u32::MAX
    }

    /// The id that stands for no node.
    pub fn none() -> (id: NodeId)
        ensures
            id.0 == u32::MAX,
    {
        NodeId(u32::MAX)
    }

    /// The id of the node at `index`.
    pub fn new(index: usize) -> (id: NodeId)
        requires
            index < u32::MAX,
        ensures
            id.0 == index,
    {
        NodeId(index as u32)
    }

    /// Whether this is the id of a node.
    #[verifier::when_used_as_spec(present)]
    pub fn is_some(self) -> (some: bool)
        ensures
            some == self.present(),
    {
        self.0 != u32::MAX
    }

    /// The place of the node among the nodes.
    pub fn idx(self) -> (index: usize)
        requires
            self.is_some(),
        ensures
            index == self.0,
    {
        self.0 as usize
    }
}

/// One file or directory that the tree knows.
#[derive(Debug)]
pub struct FsNode {
    pub path: CanonicalPathBuf,
    meta: NodeMeta,
    inode: u64,
    flags: Flags,
    children: DirId,
}

impl View for FsNode {
    type V = NodeView;

    closed spec fn view(&self) -> NodeView {
        NodeView {
            path: self.path@,
            meta: self.meta,
            inode: self.inode,
            flags: self.flags@,
            children: self.children,
        }
    }
}

impl FsNode {
    /// The path that the node stands for.
    pub fn path(&self) -> (path: &CanonicalPathBuf)
        ensures
            path@ == self@.path,
    {
        &self.path
    }

    /// What the node remembers of its path.
    pub fn meta(&self) -> (meta: NodeMeta)
        ensures
            meta == self@.meta,
    {
        self.meta
    }

    /// Marks the node as one that the running crawl has not met yet.
    pub fn set_maybe_deleted_flag(&mut self)
        ensures
            final(self)@ == (NodeView { flags: old(self)@.flags | MAYBE_DELETED, ..old(self)@ }),
    {
        self.flags.insert(MAYBE_DELETED);
    }

    /// Whether the running crawl has not met the node yet.
    pub fn maybe_deleted_flag(&self) -> (set: bool)
        ensures
            set == (self@.flags & MAYBE_DELETED == MAYBE_DELETED),
    {
        self.flags.contains(MAYBE_DELETED)
    }

    /// Takes the mark off: the crawl has met the node.
    pub fn unset_maybe_deleted_flag(&mut self)
        ensures
            final(self)@ == (NodeView { flags: old(self)@.flags & !MAYBE_DELETED, ..old(self)@ }),
    {
        self.flags.remove(MAYBE_DELETED)
    }
}

impl Keyed for Vec<FsNode> {
    open spec fn keys(&self) -> Seq<Seq<u8>> {
        self@.map_values(|node: FsNode| node@.path)
    }

    fn key_at(&self, slot: u32) -> (key: &[u8]) {
        self[slot as usize].path.logical()
    }
}

/// The mirror of the watched trees: every file and directory that was met,
/// found by path, with the children of each directory.
pub struct FileTree {
    index: PathIndex,
    nodes: Vec<FsNode>,
    dirs: Vec<EcoVec<NodeId>>,
}

impl View for FileTree {
    type V = TreeView;

    closed spec fn view(&self) -> TreeView {
        TreeView {
            nodes: self.nodes@.map_values(|node: FsNode| node@),
            dirs: self.dirs@.map_values(|list: EcoVec<NodeId>| child_ids(list)),
        }
    }
}

impl FileTree {
    /// The tree is well-formed and its index finds every node by its path.
    pub closed spec fn wf(&self) -> bool {
        &&& self@.well_formed()
        &&& indexes(self.index, self@.paths(), all_slots(self@.nodes.len()))
    }

    /// A tree that is in order is well-formed as a plain value.
    pub proof fn lemma_well_formed(&self)
        requires
            self.wf(),
        ensures
            self@.well_formed(),
    {
    }

    /// A tree without nodes.
    pub fn new() -> (tree: FileTree)
        ensures
            tree.wf(),
            tree@.nodes.len() == 0,
            tree@.dirs.len() == 0,
    {
        let tree = FileTree { index: index_new(), nodes: Vec::new(), dirs: Vec::new() };
        assert(index_slots(tree.index).dom() =~= all_slots(tree@.nodes.len()));
        tree
    }

    /// The number of nodes.
    pub fn len(&self) -> (n: usize)
        ensures
            n == self@.nodes.len(),
    {
        self.nodes.len()
    }

    /// Whether there is room for one more node.
    pub fn has_room(&self) -> (room: bool)
        ensures
            room == self@.has_room(),
    {
        self.nodes.len() < (u32::MAX as usize) - 1 && self.nodes.len() < (isize::MAX as usize)
            && self.dirs.len() < (u32::MAX as usize) - 2
    }

    /// The node with the given id.
    pub fn node(&self, id: NodeId) -> (node: &FsNode)
        requires
            id.0 < self@.nodes.len(),
        ensures
            node@ == self@.nodes[id.0 as int],
    {
        &self.nodes[id.0 as usize]
    }

    /// The path of the node with the given id.
    pub fn path(&self, id: NodeId) -> (path: &CanonicalPathBuf)
        requires
            id.0 < self@.nodes.len(),
        ensures
            path@ == self@.nodes[id.0 as int].path,
    {
        &self.nodes[id.0 as usize].path
    }

    /// The node that stands for `path`, if there is one.
    pub fn find(&self, path: &[u8]) -> (found: Option<NodeId>)
        requires
            self.wf(),
        ensures
            match found {
                Some(id) => self@.find(path@) == Some(id.0 as int) && id.0 < self@.nodes.len()
                    && self@.nodes[id.0 as int].path == path@,
                None => self@.find(path@).is_none() && forall|i: int|
                    0 <= i < self@.nodes.len() ==> self@.nodes[i].path != path@,
            },
    {
        let ghost live = all_slots(self@.nodes.len());
        assert(self.nodes.keys() =~= self@.paths());
        let found = lookup(&self.index, &self.nodes, path, Ghost(live));
        match found {
            Some(slot) => {
                proof {
                    let i = choose|i: int|
                        0 <= i < self@.nodes.len() && self@.nodes[i].path == path@;
                    assert(self@.nodes[slot as int].path == path@);
                    assert(i == slot);
                }
                Some(NodeId(slot))
            },
            None => {
                assert forall|i: int| 0 <= i < self@.nodes.len() implies self@.nodes[i].path
                    != path@ by {
                    assert(live.contains(i as u32));
                    assert(self@.paths()[i] == self@.nodes[i].path);
                }
                None
            },
        }
    }

    /// Writes `meta` into the node at `n`.
    fn set_meta(&mut self, n: usize, meta: NodeMeta)
        requires
            old(self).wf(),
            n < old(self)@.nodes.len(),
        ensures
            final(self).wf(),
            final(self)@ == old(self)@.with_node(
                n as int,
                NodeView { meta, ..old(self)@.nodes[n as int] },
            ),
            final(self)@ == old(self)@.with_metas(old(self)@.metas().update(n as int, meta)),
    {
        self.nodes[n].meta = meta;
        proof {
            let before = old(self)@;
            let after = before.with_node(n as int, NodeView { meta, ..before.nodes[n as int] });
            assert(self@.nodes =~= after.nodes);
            assert(self@.dirs =~= before.dirs);
            assert(after.nodes =~= before.with_metas(before.metas().update(n as int, meta)).nodes);
            lemma_same_shape(before, self@);
        }
    }
}

impl FileTree {
    /// Marks the node at `id` and everything below it as deleted and gives
    /// a `Delete` for every file below it. The walk keeps its place on
    /// `work_stack`, above what the stack holds, and leaves the stack as it
    /// found it.
    pub fn delete_rec(
        &mut self,
        id: NodeId,
        work_stack: &mut Vec<(NodeId, usize)>,
        events: &mut Vec<Event>,
    )
        requires
            old(self).wf(),
            id.0 < old(self)@.nodes.len(),
        ensures
            old(self)@.same_shape(final(self)@),
            final(self)@.grown_from(old(self)@),
            final(self).wf(),
            final(work_stack)@ == old(work_stack)@,
            final(self)@ == deleted(old(self)@, id.0 as int).0,
            event_views(final(events)@) == event_views(old(events)@) + deleted(
                old(self)@,
                id.0 as int,
            ).1,
    {
        let ghost tree = self@;
        let ghost before = event_views(events@);
        let ghost below = work_stack@;
        let ghost marked = tree.metas().update(id.0 as int, NodeMeta::Deleted);
        self.set_meta(id.idx(), NodeMeta::Deleted);
        proof {
            lemma_with_metas(tree, marked, marked);
        }
        if self.nodes[id.idx()].children.is_none() {
            assert(event_views(events@) =~= before + Seq::<EventView>::empty());
            return ;
        }
        let start: usize = work_stack.len();
        work_stack.push((id, 0));
        let ghost goal = sweep(tree, marked, id.0 as int, 0);
        proof {
            let frames = work_stack@.subrange(start as int, work_stack@.len() as int);
            assert(frames =~= seq![(id, 0usize)]);
            assert(frames.drop_last() =~= Seq::<(NodeId, usize)>::empty());
            assert(frames.last() == (id, 0usize));
            assert(finish(tree, goal.0, frames.drop_last()) == (
                goal.0,
                Seq::<EventView>::empty(),
                0nat,
            ));
            assert(self@.metas() == marked);
            assert(finish(tree, marked, frames).0 == goal.0);
            assert(finish(tree, marked, frames).1 =~= goal.1);
            assert(event_views(events@) + goal.1 =~= before + goal.1);
        }
        while work_stack.len() > start
            invariant
                self.wf(),
                tree.well_formed(),
                tree.same_shape(self@),
                self@ == tree.with_metas(self@.metas()),
                start == below.len(),
                work_stack@.len() >= start,
                work_stack@.subrange(0, start as int) == below,
                forall|f: int| start <= f < work_stack@.len() ==> frame_ok(tree, #[trigger] work_stack@[f]),
                finish(
                    tree,
                    self@.metas(),
                    work_stack@.subrange(start as int, work_stack@.len() as int),
                ).0 == goal.0,
                event_views(events@) + finish(
                    tree,
                    self@.metas(),
                    work_stack@.subrange(start as int, work_stack@.len() as int),
                ).1 == before + goal.1,
            decreases
                    finish(
                        tree,
                        self@.metas(),
                        work_stack@.subrange(start as int, work_stack@.len() as int),
                    ).2,
        {
            let ghost metas = self@.metas();
            let ghost frames = work_stack@.subrange(start as int, work_stack@.len() as int);
            let ghost emitted = event_views(events@);
            let top: usize = work_stack.len() - 1;
            let node = work_stack[top].0;
            let at: usize = work_stack[top].1;
            assert(frames.last() == (node, at));
            assert(frame_ok(tree, work_stack@[top as int]));
            let ghost n = node.0 as int;
            let ghost inner = sweep(tree, metas, n, at as int);
            let ghost outer = finish(tree, inner.0, frames.drop_last());
            assert(finish(tree, metas, frames) == (outer.0, inner.1 + outer.1, inner.2 + outer.2));
            assert(tree.nodes[n].children == self@.nodes[n].children);
            let list_id = self.nodes[node.idx()].children;
            assert(tree.nodes[n].children.0 < tree.dirs.len());
            let list = children_as_slice(&self.dirs[list_id.idx()]);
            assert(list@ == tree.children_of(n));
            if at >= list.len() {
                self.set_meta(node.idx(), NodeMeta::Deleted);
                work_stack.pop();
                proof {
                    lemma_with_metas(tree, metas, metas.update(n, NodeMeta::Deleted));
                    assert(work_stack@.subrange(start as int, work_stack@.len() as int)
                        =~= frames.drop_last());
                    assert(work_stack@.subrange(0, start as int) =~= below);
                    assert(inner.1 + outer.1 =~= outer.1);
                }
                continue ;
            }
            let child = list[at];
            let ghost c = child.0 as int;
            assert(tree.children_of(n)[at as int].0 > n);
            assert(tree.dirs[list_id.0 as int][at as int].0 < tree.nodes.len());
            work_stack[top] = (node, at + 1);
            let ghost own = if metas[c] is File {
                seq![delete_of(tree.nodes[c].path)]
            } else {
                Seq::<EventView>::empty()
            };
            let ghost after = metas.update(c, NodeMeta::Deleted);
            assert(self@.nodes[c].meta == metas[c]);
            assert(self@.nodes[c].path == tree.nodes[c].path);
            let mut descend = false;
            if self.nodes[child.idx()].meta.is_file() {
                let path = self.nodes[child.idx()].path.clone();
                events.push(Event { path, ty: EventType::Delete });
                assert(event_views(events@) =~= emitted + own);
            } else {
                assert(event_views(events@) =~= emitted + own);
                if self.nodes[child.idx()].meta.is_dir() && self.nodes[child.idx()].children.is_some() {
                    descend = true;
                    work_stack.push((child, 0));
                }
            }
            assert(descend == (metas[c] is Dir && tree.nodes[c].children.present()));
            self.set_meta(child.idx(), NodeMeta::Deleted);
            proof {
                lemma_with_metas(tree, metas, after);
                lemma_sweep_len(tree, after, c, 0);
                assert(work_stack@.subrange(0, start as int) =~= below);
                let moved = frames.update(frames.len() - 1, (node, (at + 1) as usize));
                let now = work_stack@.subrange(start as int, work_stack@.len() as int);
                assert(moved.drop_last() =~= frames.drop_last());
                if descend {
                    let down = sweep(tree, after, c, 0);
                    let rest = sweep(tree, down.0, n, at + 1);
                    assert(inner == (rest.0, own + down.1 + rest.1, 1 + down.2 + rest.2));
                    assert(now =~= moved.push((child, 0usize)));
                    assert(now.drop_last() =~= moved);
                    assert(finish(tree, down.0, moved) == (
                        outer.0,
                        rest.1 + outer.1,
                        rest.2 + outer.2,
                    ));
                    assert(finish(tree, after, now) == (
                        outer.0,
                        down.1 + (rest.1 + outer.1),
                        down.2 + (rest.2 + outer.2),
                    ));
                    assert((emitted + own) + (down.1 + (rest.1 + outer.1)) =~= emitted + ((own
                        + down.1 + rest.1) + outer.1));
                    assert(frame_ok(tree, (child, 0usize)));
                } else {
                    let rest = sweep(tree, after, n, at + 1);
                    assert(inner == (rest.0, own + rest.1, 1 + rest.2));
                    assert(now =~= moved);
                    assert(finish(tree, after, now) == (
                        outer.0,
                        rest.1 + outer.1,
                        rest.2 + outer.2,
                    ));
                    assert((emitted + own) + (rest.1 + outer.1) =~= emitted + ((own + rest.1)
                        + outer.1));
                }
                assert(frame_ok(tree, (node, (at + 1) as usize)));
            }
        }
        proof {
            let frames = work_stack@.subrange(start as int, work_stack@.len() as int);
            assert(frames =~= Seq::<(NodeId, usize)>::empty());
            assert(work_stack@ =~= below);
            assert(event_views(events@) + Seq::<EventView>::empty() =~= event_views(events@));
        }
    }
}

impl FileTree {
    /// Writes metadata, inode and flags into the node at `n`.
    fn set_node(&mut self, n: usize, meta: NodeMeta, inode: u64, flags: Flags)
        requires
            old(self).wf(),
            n < old(self)@.nodes.len(),
        ensures
            final(self).wf(),
            final(self)@ == old(self)@.with_node(
                n as int,
                NodeView { meta, inode, flags: flags@, ..old(self)@.nodes[n as int] },
            ),
    {
        self.nodes[n].meta = meta;
        self.nodes[n].inode = inode;
        self.nodes[n].flags = flags;
        proof {
            let before = old(self)@;
            let after = before.with_node(
                n as int,
                NodeView { meta, inode, flags: flags@, ..before.nodes[n as int] },
            );
            assert(self@.nodes =~= after.nodes);
            assert(self@.dirs =~= before.dirs);
            lemma_same_shape(before, self@);
        }
    }

    /// Gives the node at `n`, which has none, a fresh child list.
    fn reserve_dir(&mut self, n: usize) -> (list: DirId)
        requires
            old(self).wf(),
            n < old(self)@.nodes.len(),
            old(self)@.nodes[n as int].children.absent(),
            old(self)@.dirs.len() + 1 < u32::MAX,
        ensures
            final(self).wf(),
            final(self)@ == reserved(old(self)@, n as int),
            list.0 == old(self)@.dirs.len(),
    {
        let list = DirId::new(self.dirs.len());
        self.nodes[n].children = list;
        let fresh = children_new();
        assert(child_ids(fresh) =~= Seq::<NodeId>::empty());
        self.dirs.push(fresh);
        proof {
            let before = old(self)@;
            let after = reserved(before, n as int);
            assert(self@.nodes =~= after.nodes);
            assert(self@.dirs =~= after.dirs);
            lemma_reserved(before, n as int);
        }
        list
    }

    /// Adds `node` as the last node, as a child of the node at `parent` if
    /// one is given.
    fn insert_node(&mut self, parent: Option<NodeId>, node: FsNode) -> (id: NodeId)
        requires
            old(self).wf(),
            old(self)@.has_room(),
            match parent {
                Some(p) => p.0 < old(self)@.nodes.len() && parent_bytes(node@.path) == Some(
                    old(self)@.nodes[p.0 as int].path,
                ),
                None => true,
            },
            node@.children.absent(),
            forall|i: int| 0 <= i < old(self)@.nodes.len() ==> old(self)@.nodes[i].path != node@.path,
        ensures
            final(self).wf(),
            id.0 == old(self)@.nodes.len(),
            final(self)@ == inserted(
                old(self)@,
                match parent {
                    Some(p) => Some(p.0 as int),
                    None => None,
                },
                node@,
            ),
    {
        let ghost before = self@;
        let ghost spec_parent = match parent {
            Some(p) => Some(p.0 as int),
            None => None,
        };
        let ghost live = all_slots(before.nodes.len());
        let id = NodeId::new(self.nodes.len());
        proof {
            lemma_inserted(before, spec_parent, node@);
        }
        match parent {
            Some(p) => {
                if self.nodes[p.idx()].children.is_none() {
                    let _ = self.reserve_dir(p.idx());
                }
                let ghost ready = self@;
                let list = self.nodes[p.idx()].children;
                assert(ready.nodes[p.0 as int].children.absent() || ready.nodes[p.0 as int].children.0
                    < ready.dirs.len());
                assert(ready.dirs[list.0 as int].len() <= ready.nodes.len());
                children_push(&mut self.dirs[list.idx()], id);
                assert(self@.dirs =~= ready.dirs.update(
                    list.0 as int,
                    ready.dirs[list.0 as int].push(id),
                ));
                assert(self@.nodes =~= ready.nodes);
            },
            None => {},
        }
        let ghost ready = self@;
        self.nodes.push(node);
        proof {
            let after = inserted(before, spec_parent, node@);
            assert(self@.nodes =~= after.nodes);
            assert(self@.dirs =~= after.dirs);
            assert(self.nodes.keys() =~= after.paths());
            assert(self.nodes.keys() =~= before.paths().push(node@.path));
            assert forall|slot: u32| live.contains(slot) implies slot < self.nodes.keys().len()
                && self.nodes.keys()[slot as int] == before.paths()[slot as int] by {}
        }
        file(&mut self.index, &self.nodes, id.0, Ghost(live));
        assert(all_slots(self@.nodes.len()) =~= live.insert(id.0));
        id
    }
}

impl FileTree {
    /// The node of the directory that holds `path`, if the tree knows it.
    fn find_parent(&self, path: &CanonicalPathBuf) -> (found: Option<NodeId>)
        requires
            self.wf(),
        ensures
            match found {
                Some(id) => parent_of(self@, path@) == Some(id.0 as int) && id.0
                    < self@.nodes.len() && parent_bytes(path@) == Some(
                    self@.nodes[id.0 as int].path,
                ),
                None => parent_of(self@, path@).is_none(),
            },
    {
        match path.parent() {
            Some(bytes) => self.find(bytes),
            None => None,
        }
    }

    /// Applies a change to the tree, given what a `stat` of its path found:
    /// `None` for a path that is gone.
    pub fn apply_change(
        &mut self,
        change: &PendingChange,
        fs_meta: Option<Metadata>,
        work_stack: &mut Vec<(NodeId, usize)>,
        events: &mut Vec<Event>,
    ) -> (result: (NodeId, bool))
        requires
            old(self).wf(),
            old(self)@.has_room(),
        ensures
            final(self)@.keeps(old(self)@),
            final(self)@.grown_from(old(self)@),
            final(self).wf(),
            final(work_stack)@ == old(work_stack)@,
            final(self)@ == applied(old(self)@, change@, fs_meta).0,
            event_views(final(events)@) == event_views(old(events)@) + applied(
                old(self)@,
                change@,
                fs_meta,
            ).1,
            result.0 == applied(old(self)@, change@, fs_meta).2,
            result.1 == applied(old(self)@, change@, fs_meta).3,
    {
        let ghost tree = self@;
        let ghost before = event_views(events@);
        proof {
            lemma_applied(tree, change@, fs_meta);
            lemma_applied_keeps(tree, change@, fs_meta);
        }
        let mark_recursive = change.flags.contains(MARK_RECURSIVE);
        match self.find(change.path.logical()) {
            Some(id) => {
                let n = id.idx();
                let mut flags = self.nodes[n].flags;
                if mark_recursive {
                    flags.insert(RECURSIVE);
                }
                assert(flags@ == marked_flags(tree.nodes[n as int].flags, change@.flags));
                match fs_meta {
                    Some(meta) => {
                        let new_meta = NodeMeta::new(&meta);
                        let inode_changed = meta.inode != self.nodes[n].inode;
                        let mut recursive = change.flags.contains(NEEDS_RECURSIVE_CRAWL)
                            || inode_changed;
                        let kind = self.nodes[n].meta.change_type(
                            &new_meta,
                            inode_changed || change.flags.contains(ORIGIN_WATCHER),
                        );
                        match kind {
                            Some(ty) => {
                                events.push(Event { path: change.path.clone(), ty });
                                if ty == EventType::Create {
                                    recursive = true;
                                }
                                assert(event_views(events@) =~= before + seq![
                                    EventView { path: change@.path, ty },
                                ]);
                            },
                            None => {
                                assert(event_views(events@) =~= before + Seq::<EventView>::empty());
                            },
                        }
                        let had_list = self.nodes[n].children.is_some();
                        self.set_node(n, new_meta, meta.inode, flags);
                        let watched = flags.contains(WATCH_CHILDREN);
                        if meta.is_dir && !had_list && meta.size != 0 && watched {
                            let _ = self.reserve_dir(n);
                        }
                        (id, recursive && watched)
                    },
                    None => {
                        let old_meta = self.nodes[n].meta;
                        let inode = self.nodes[n].inode;
                        self.set_node(n, NodeMeta::Deleted, inode, flags);
                        match old_meta {
                            NodeMeta::Dir => {
                                self.delete_rec(id, work_stack, events);
                            },
                            NodeMeta::File { .. } => {
                                events.push(
                                    Event { path: change.path.clone(), ty: EventType::Delete },
                                );
                                assert(event_views(events@) =~= before + seq![
                                    delete_of(change@.path),
                                ]);
                            },
                            NodeMeta::Deleted => {
                                assert(event_views(events@) =~= before + Seq::<EventView>::empty());
                            },
                        }
                        (id, true)
                    },
                }
            },
            None => {
                assert(event_views(events@) =~= before + Seq::<EventView>::empty());
                let meta = match fs_meta {
                    None => {
                        return (NodeId::none(), true);
                    },
                    Some(meta) => meta,
                };
                let parent = match self.find_parent(&change.path) {
                    None => {
                        return (NodeId::none(), true);
                    },
                    Some(parent) => parent,
                };
                let recursive = mark_recursive || self.nodes[parent.idx()].flags.contains(
                    RECURSIVE,
                );
                let flags = if recursive {
                    Flags::from_bits(RECURSIVE)
                } else {
                    Flags::empty()
                };
                let node = FsNode {
                    path: change.path.clone(),
                    meta: NodeMeta::new(&meta),
                    inode: meta.inode,
                    flags,
                    children: DirId::none(),
                };
                proof {
                    lemma_inserted(tree, Some(parent.0 as int), node@);
                }
                let id = self.insert_node(Some(parent), node);
                if !meta.is_dir {
                    events.push(Event { path: change.path.clone(), ty: EventType::Create });
                    assert(event_views(events@) =~= before + seq![
                        EventView { path: change@.path, ty: EventType::Create },
                    ]);
                } else if recursive && meta.size != 0 {
                    let _ = self.reserve_dir(id.idx());
                }
                (id, recursive)
            },
        }
    }

    /// Adds `path` to the tree on the caller's word, given what a `stat` of
    /// it found; as a root if `root` is set, else as what a first crawl
    /// below a root found. Gives the node, or `None` where the path was
    /// refused.
    pub fn add(
        &mut self,
        path: CanonicalPathBuf,
        recursive: bool,
        root: bool,
        fs_meta: Option<Metadata>,
    ) -> (id: Option<NodeId>)
        requires
            old(self).wf(),
            old(self)@.has_room(),
        ensures
            final(self)@.keeps(old(self)@),
            final(self)@.grown_from(old(self)@),
            final(self).wf(),
            final(self)@ == added(old(self)@, path@, recursive, root, fs_meta).0,
            id == added(old(self)@, path@, recursive, root, fs_meta).1,
    {
        let ghost tree = self@;
        proof {
            lemma_added(tree, path@, recursive, root, fs_meta);
            lemma_added_keeps(tree, path@, recursive, root, fs_meta);
        }
        match self.find(path.logical()) {
            Some(id) => {
                let n = id.idx();
                if !recursive {
                    return None;
                }
                if root && !self.nodes[n].meta.is_dir() {
                    return None;
                }
                let mut flags = self.nodes[n].flags;
                flags.insert(RECURSIVE);
                let meta = self.nodes[n].meta;
                let inode = self.nodes[n].inode;
                self.set_node(n, meta, inode, flags);
                Some(id)
            },
            None => {
                let meta = match fs_meta {
                    None => {
                        return None;
                    },
                    Some(meta) => meta,
                };
                let parent = self.find_parent(&path);
                if (root && !meta.is_dir) || (parent.is_none() && !root) {
                    return None;
                }
                let flags = if recursive {
                    Flags::from_bits(RECURSIVE)
                } else if root {
                    Flags::from_bits(WATCH_CHILDREN)
                } else {
                    Flags::empty()
                };
                let node = FsNode {
                    path,
                    meta: NodeMeta::new(&meta),
                    inode: meta.inode,
                    flags,
                    children: DirId::none(),
                };
                proof {
                    lemma_inserted(tree, parent_of(tree, path@), node@);
                }
                let id = self.insert_node(parent, node);
                if meta.is_dir && (recursive || root) && meta.size != 0 {
                    let _ = self.reserve_dir(id.idx());
                }
                Some(id)
            },
        }
    }

    /// Adds `root` to the tree as a directory to watch. A root has to be a
    /// directory. One that the tree knows already is only taken for a
    /// recursive watch.
    pub fn add_root(&mut self, root: CanonicalPathBuf, recursive: bool, fs_meta: Option<Metadata>) -> (id:
        Option<NodeId>)
        requires
            old(self).wf(),
            old(self)@.has_room(),
        ensures
            final(self)@.keeps(old(self)@),
            final(self)@.grown_from(old(self)@),
            final(self).wf(),
            final(self)@ == added(old(self)@, root@, recursive, true, fs_meta).0,
            id == added(old(self)@, root@, recursive, true, fs_meta).1,
    {
        self.add(root, recursive, true, fs_meta)
    }
}

impl FileTree {
    /// Marks every child of the node at `n` as not met yet.
    fn flag_children(&mut self, n: usize)
        requires
            old(self).wf(),
            n < old(self)@.nodes.len(),
            old(self)@.nodes[n as int].children.present(),
        ensures
            final(self).wf(),
            final(self)@ == flagged(
                old(self)@,
                n as int,
                old(self)@.children_of(n as int).len() as int,
            ),
            old(self)@.same_shape(final(self)@),
            final(self)@.metas() == old(self)@.metas(),
    {
        let ghost tree = self@;
        let list = self.nodes[n].children;
        assert(tree.nodes[n as int].children.absent() || tree.nodes[n as int].children.0
            < tree.dirs.len());
        let total: usize = children_len(&self.dirs[list.idx()]);
        let mut k: usize = 0;
        while k < total
            invariant
                self.wf(),
                tree.well_formed(),
                n < tree.nodes.len(),
                list == tree.nodes[n as int].children,
                list.0 < tree.dirs.len(),
                total == tree.children_of(n as int).len(),
                k <= total,
                self@ == flagged(tree, n as int, k as int),
            decreases total - k,
        {
            proof {
                lemma_flagged(tree, n as int, k as int);
            }
            let ghost before = self@;
            let child = children_as_slice(&self.dirs[list.idx()])[k];
            assert(tree.dirs[list.0 as int][k as int].0 < tree.nodes.len());
            self.nodes[child.idx()].set_maybe_deleted_flag();
            proof {
                let after = before.with_node(
                    child.0 as int,
                    NodeView {
                        flags: before.nodes[child.0 as int].flags | MAYBE_DELETED,
                        ..before.nodes[child.0 as int]
                    },
                );
                assert(self@.nodes =~= after.nodes);
                assert(self@.dirs =~= after.dirs);
                lemma_flagged(tree, n as int, k + 1);
                lemma_same_shape(tree, self@);
            }
            k += 1;
        }
        proof {
            lemma_flagged(tree, n as int, total as int);
        }
    }

    /// Takes the mark of not having been met off every child of the node
    /// at `n`.
    fn unflag_children(&mut self, n: usize)
        requires
            old(self).wf(),
            n < old(self)@.nodes.len(),
            old(self)@.nodes[n as int].children.present(),
        ensures
            final(self).wf(),
            final(self)@ == unflagged(
                old(self)@,
                n as int,
                old(self)@.children_of(n as int).len() as int,
            ),
            old(self)@.same_shape(final(self)@),
            final(self)@.metas() == old(self)@.metas(),
    {
        let ghost tree = self@;
        let list = self.nodes[n].children;
        assert(tree.nodes[n as int].children.absent() || tree.nodes[n as int].children.0
            < tree.dirs.len());
        let total: usize = children_len(&self.dirs[list.idx()]);
        let mut k: usize = 0;
        while k < total
            invariant
                self.wf(),
                tree.well_formed(),
                n < tree.nodes.len(),
                list == tree.nodes[n as int].children,
                list.0 < tree.dirs.len(),
                total == tree.children_of(n as int).len(),
                k <= total,
                self@ == unflagged(tree, n as int, k as int),
            decreases total - k,
        {
            proof {
                lemma_unflagged(tree, n as int, k as int);
            }
            let ghost before = self@;
            let child = children_as_slice(&self.dirs[list.idx()])[k];
            assert(tree.dirs[list.0 as int][k as int].0 < tree.nodes.len());
            self.nodes[child.idx()].unset_maybe_deleted_flag();
            proof {
                let after = before.with_node(
                    child.0 as int,
                    NodeView {
                        flags: before.nodes[child.0 as int].flags & !MAYBE_DELETED,
                        ..before.nodes[child.0 as int]
                    },
                );
                assert(self@.nodes =~= after.nodes);
                assert(self@.dirs =~= after.dirs);
                lemma_unflagged(tree, n as int, k + 1);
                lemma_same_shape(tree, self@);
            }
            k += 1;
        }
        proof {
            lemma_unflagged(tree, n as int, total as int);
        }
    }

    /// Marks what the crawl did not meet among the children of `node` as
    /// deleted, with what lies below it.
    fn sweep_unmet(&mut self, node: NodeId, work_stack: &mut Vec<(NodeId, usize)>, events: &mut Vec<Event>)
        requires
            old(self).wf(),
            crawl_frame_ok(old(self)@, (node, 0usize)),
        ensures
            final(self).wf(),
            final(work_stack)@ == old(work_stack)@,
            final(self)@ == old(self)@.with_metas(
                resolved(old(self)@, old(self)@.metas(), node.0 as int, 0).0,
            ),
            old(self)@.same_shape(final(self)@),
            event_views(final(events)@) == event_views(old(events)@) + resolved(
                old(self)@,
                old(self)@.metas(),
                node.0 as int,
                0,
            ).1,
    {
        let ghost tree = self@;
        let ghost before = event_views(events@);
        let ghost n = node.0 as int;
        let ghost goal = resolved(tree, tree.metas(), n, 0);
        let list = self.nodes[node.idx()].children;
        assert(tree.nodes[n].children.absent() || tree.nodes[n].children.0 < tree.dirs.len());
        let total: usize = children_len(&self.dirs[list.idx()]);
        let mut k: usize = 0;
        proof {
            lemma_with_metas(tree, tree.metas(), tree.metas());
            assert(event_views(events@) + goal.1 =~= before + goal.1);
        }
        while k < total
            invariant
                self.wf(),
                tree.well_formed(),
                0 <= n < tree.nodes.len(),
                n == node.0,
                list == tree.nodes[n].children,
                list.0 < tree.dirs.len(),
                total == tree.children_of(n).len(),
                k <= total,
                work_stack@ == old(work_stack)@,
                tree.same_shape(self@),
                self@ == tree.with_metas(self@.metas()),
                resolved(tree, self@.metas(), n, k as int).0 == goal.0,
                event_views(events@) + resolved(tree, self@.metas(), n, k as int).1 == before
                    + goal.1,
            decreases total - k,
        {
            let ghost metas = self@.metas();
            let ghost emitted = event_views(events@);
            let child = children_as_slice(&self.dirs[list.idx()])[k];
            let ghost c = child.0 as int;
            assert(tree.dirs[list.0 as int][k as int].0 < tree.nodes.len());
            assert(self@.nodes[c].flags == tree.nodes[c].flags);
            assert(self@.nodes[c].path == tree.nodes[c].path);
            assert(self@.nodes[c].meta == metas[c]);
            let known = match self.nodes[child.idx()].meta {
                NodeMeta::Deleted => false,
                _ => true,
            };
            if self.nodes[child.idx()].maybe_deleted_flag() && known {
                let ghost now = self@;
                let path = self.nodes[child.idx()].path.clone();
                events.push(Event { path, ty: EventType::Delete });
                let ghost own = seq![delete_of(tree.nodes[c].path)];
                assert(event_views(events@) =~= emitted + own);
                self.delete_rec(child, work_stack, events);
                proof {
                    let gone = swept(tree, metas, c);
                    let rest = resolved(tree, gone.0, n, k + 1);
                    lemma_sweep_shape(now, tree, metas.update(c, NodeMeta::Deleted), c, 0);
                    assert(swept(now, metas, c) == gone);
                    lemma_swept_len(tree, metas, c);
                    lemma_with_metas(tree, metas, gone.0);
                    lemma_same_shape(tree, self@);
                    assert(resolved(tree, metas, n, k as int) == (
                        rest.0,
                        own + gone.1 + rest.1,
                    ));
                    assert((emitted + own + gone.1) + rest.1 =~= emitted + (own + gone.1
                        + rest.1));
                }
            }
            k += 1;
        }
        proof {
            assert(event_views(events@) + Seq::<EventView>::empty() =~= event_views(events@));
        }
    }

    /// Settles the directory at `node` after the crawl has left it: every
    /// child that was not met is gone, and no child wears the mark any
    /// longer.
    fn resolve(&mut self, node: NodeId, work_stack: &mut Vec<(NodeId, usize)>, events: &mut Vec<Event>)
        requires
            old(self).wf(),
            crawl_frame_ok(old(self)@, (node, 0usize)),
        ensures
            final(self).wf(),
            final(work_stack)@ == old(work_stack)@,
            final(self)@ == settled(old(self)@, node.0 as int).0,
            old(self)@.same_shape(final(self)@),
            event_views(final(events)@) == event_views(old(events)@) + settled(
                old(self)@,
                node.0 as int,
            ).1,
    {
        let ghost tree = self@;
        self.sweep_unmet(node, work_stack, events);
        let ghost swept = self@;
        assert(swept.children_of(node.0 as int) == tree.children_of(node.0 as int)) by {
            assert(tree.nodes[node.0 as int].children == swept.nodes[node.0 as int].children);
        }
        self.unflag_children(node.idx());
        proof {
            assert forall|i: int| 0 <= i < tree.nodes.len() implies (#[trigger] tree.nodes[i]).path
                == self@.nodes[i].path && tree.nodes[i].children == self@.nodes[i].children by {
                assert(swept.nodes[i].path == self@.nodes[i].path);
                assert(swept.nodes[i].children == self@.nodes[i].children);
            }
        }
    }

    /// Settles the directories that the crawl has left once it meets an
    /// entry at `depth`.
    fn unwind(&mut self, depth: usize, work_stack: &mut Vec<(NodeId, usize)>, events: &mut Vec<Event>)
        requires
            old(self).wf(),
            crawl_frames_ok(old(self)@, old(work_stack)@),
        ensures
            final(self).wf(),
            old(self)@.same_shape(final(self)@),
            crawl_frames_ok(final(self)@, final(work_stack)@),
            final(self)@ == unwound(old(self)@, old(work_stack)@, depth).0,
            event_views(final(events)@) == event_views(old(events)@) + unwound(
                old(self)@,
                old(work_stack)@,
                depth,
            ).1,
            final(work_stack)@ == unwound(old(self)@, old(work_stack)@, depth).2,
    {
        let ghost tree = self@;
        let ghost before = event_views(events@);
        let ghost goal = unwound(tree, work_stack@, depth);
        proof {
            assert(event_views(events@) + goal.1 =~= before + goal.1);
        }
        loop
            invariant
                self.wf(),
                tree.same_shape(self@),
                crawl_frames_ok(self@, work_stack@),
                unwound(self@, work_stack@, depth).0 == goal.0,
                unwound(self@, work_stack@, depth).2 == goal.2,
                event_views(events@) + unwound(self@, work_stack@, depth).1 == before + goal.1,
            ensures
                self.wf(),
                tree.same_shape(self@),
                self@ == goal.0,
                crawl_frames_ok(self@, work_stack@),
                work_stack@ == goal.2,
                event_views(events@) == before + goal.1,
            decreases work_stack@.len(),
        {
            let ghost frames = work_stack@;
            let ghost emitted = event_views(events@);
            if work_stack.len() == 0 {
                assert(emitted + Seq::<EventView>::empty() =~= emitted);
                break ;
            }
            let top: usize = work_stack.len() - 1;
            if work_stack[top].1 < depth {
                assert(emitted + Seq::<EventView>::empty() =~= emitted);
                break ;
            }
            let node = work_stack[top].0;
            assert(crawl_frame_ok(self@, frames[top as int]));
            work_stack.pop();
            assert(work_stack@ =~= frames.drop_last());
            let ghost now = self@;
            self.resolve(node, work_stack, events);
            proof {
                let inner = settled(now, node.0 as int);
                let outer = unwound(inner.0, frames.drop_last(), depth);
                assert((emitted + inner.1) + outer.1 =~= emitted + (inner.1 + outer.1));
                assert forall|f: int| 0 <= f < work_stack@.len() implies crawl_frame_ok(
                    self@,
                    #[trigger] work_stack@[f],
                ) by {
                    assert(crawl_frame_ok(now, frames[f]));
                    assert(now.nodes[frames[f].0.0 as int].children
                        == self@.nodes[frames[f].0.0 as int].children);
                }
                assert forall|i: int| 0 <= i < tree.nodes.len() implies (
                #[trigger] tree.nodes[i]).path == self@.nodes[i].path && tree.nodes[i].children
                    == self@.nodes[i].children by {
                    assert(now.nodes[i].path == self@.nodes[i].path);
                    assert(now.nodes[i].children == self@.nodes[i].children);
                }
            }
        }
    }
}

/// What a walk does with an entry it has come to.
#[derive(Debug, Clone, Copy, PartialEq, Eq, Structural)]
pub enum Visit {
    /// Pass over the entry.
    Skip,
    /// Pass over the entry and do not go into it.
    SkipDir,
    /// Hand the entry to the tree.
    Enter,
}

/// What a first crawl does after the tree has seen an entry.
#[derive(Debug, Clone, Copy, PartialEq, Eq, Structural)]
pub enum Walk {
    /// Go on with the next entry.
    Next,
    /// Go on, but do not go into this entry.
    SkipDir,
    /// Watch this directory, then go on.
    Watch,
}

/// What a walk does with an entry below its root, once the filter has
/// said whether it ignores the entry: what is ignored is passed over, a
/// directory together with what it holds.
pub fn visit_filtered(ignored: bool, is_dir: bool) -> (what: Visit)
    ensures
        what == if !ignored {
            Visit::Enter
        } else if is_dir {
            Visit::SkipDir
        } else {
            Visit::Skip
        },
{
    if !ignored {
        Visit::Enter
    } else if is_dir {
        Visit::SkipDir
    } else {
        Visit::Skip
    }
}

/// What a walk does with an entry: the root of the walk, at depth 0, is
/// passed over without asking the filter. Of any other entry the filter is
/// asked, with `path` and whether it is a directory, and `visit_filtered`
/// decides on its answer.
pub fn visit<F: Filter>(filter: &F, path: &[u8], depth: usize, is_dir: bool) -> (what: Visit)
    ensures
        depth == 0 ==> what == Visit::Skip,
        what == Visit::SkipDir ==> is_dir,
        what == Visit::Skip && depth > 0 ==> !is_dir,
        depth > 0 ==> exists|ignored: bool| #[trigger]
            call_ensures(F::ignore_path, (filter, path, Some(is_dir)), ignored) && what == (
            if !ignored {
                Visit::Enter
            } else if is_dir {
                Visit::SkipDir
            } else {
                Visit::Skip
            }),
{
    if depth == 0 {
        Visit::Skip
    } else {
        let ignored = filter.ignore_path(path, Some(is_dir));
        assert(call_ensures(F::ignore_path, (filter, path, Some(is_dir)), ignored));
        visit_filtered(ignored, is_dir)
    }
}

impl FileTree {
    /// Takes the mark of not having been met off the node at `n`.
    fn clear_mark(&mut self, n: usize)
        requires
            old(self).wf(),
            n < old(self)@.nodes.len(),
        ensures
            final(self).wf(),
            old(self)@.same_shape(final(self)@),
            final(self)@ == old(self)@.with_node(
                n as int,
                NodeView {
                    flags: old(self)@.nodes[n as int].flags & !MAYBE_DELETED,
                    ..old(self)@.nodes[n as int]
                },
            ),
    {
        self.nodes[n].unset_maybe_deleted_flag();
        proof {
            let before = old(self)@;
            let after = before.with_node(
                n as int,
                NodeView {
                    flags: before.nodes[n as int].flags & !MAYBE_DELETED,
                    ..before.nodes[n as int]
                },
            );
            assert(self@.nodes =~= after.nodes);
            assert(self@.dirs =~= after.dirs);
            lemma_same_shape(before, self@);
        }
    }

    /// Starts a crawl that brings the tree below `root` up to date. Gives
    /// whether the crawl is recursive: a crawl that is not looks at the
    /// entries directly below the root only. The caller watches the root,
    /// walks the directory and hands every entry to `crawl_entry`, and
    /// calls `crawl_done` at the end.
    pub fn crawl(&mut self, root: NodeId, work_stack: &mut Vec<(NodeId, usize)>) -> (recursive: bool)
        requires
            old(self).wf(),
            root.0 < old(self)@.nodes.len(),
            crawl_frames_ok(old(self)@, old(work_stack)@),
        ensures
            marks_on_frames(old(self)@, old(work_stack)@) ==> marks_on_frames(
                final(self)@,
                final(work_stack)@,
            ),
            final(self)@.grown_from(old(self)@),
            final(self).wf(),
            crawl_frames_ok(final(self)@, final(work_stack)@),
            recursive == has(old(self)@.nodes[root.0 as int].flags, RECURSIVE),
            final(self)@ == crawl_started(old(self)@, old(work_stack)@, root.0 as int).0,
            final(work_stack)@ == crawl_started(old(self)@, old(work_stack)@, root.0 as int).1,
            old(self)@.same_shape(final(self)@),
    {
        let ghost tree = self@;
        let recursive = self.nodes[root.idx()].flags.contains(RECURSIVE);
        if self.nodes[root.idx()].children.is_some() {
            self.flag_children(root.idx());
            work_stack.push((root, 0));
            proof {
                if marks_on_frames(tree, old(work_stack)@) {
                    lemma_marks_pushed(tree, old(work_stack)@, root.0 as int, 0);
                }
                assert forall|f: int| 0 <= f < work_stack@.len() implies crawl_frame_ok(
                    self@,
                    #[trigger] work_stack@[f],
                ) by {
                    if f < old(work_stack)@.len() {
                        assert(crawl_frame_ok(tree, old(work_stack)@[f]));
                    }
                    assert(tree.nodes[work_stack@[f].0.0 as int].children
                        == self@.nodes[work_stack@[f].0.0 as int].children);
                }
            }
        }
        recursive
    }

    /// Takes in one entry that the walk of a crawl has come to: `path`, at
    /// `depth` below the root, of which a `stat` found `fs_meta`. Gives
    /// whether the caller is to watch the path before the walk goes on.
    pub fn crawl_entry(
        &mut self,
        recursive: bool,
        path: CanonicalPathBuf,
        depth: usize,
        fs_meta: Option<Metadata>,
        work_stack: &mut Vec<(NodeId, usize)>,
        events: &mut Vec<Event>,
    ) -> (watch: bool)
        requires
            old(self).wf(),
            old(self)@.has_room(),
            crawl_frames_ok(old(self)@, old(work_stack)@),
        ensures
            marks_on_frames(old(self)@, old(work_stack)@) ==> marks_on_frames(
                final(self)@,
                final(work_stack)@,
            ),
            final(self).wf(),
            crawl_frames_ok(final(self)@, final(work_stack)@),
            final(self)@ == crawl_entered(
                old(self)@,
                old(work_stack)@,
                recursive,
                path@,
                depth,
                fs_meta,
            ).0,
            event_views(final(events)@) == event_views(old(events)@) + crawl_entered(
                old(self)@,
                old(work_stack)@,
                recursive,
                path@,
                depth,
                fs_meta,
            ).1,
            final(work_stack)@ == crawl_entered(
                old(self)@,
                old(work_stack)@,
                recursive,
                path@,
                depth,
                fs_meta,
            ).2,
            watch == crawl_entered(
                old(self)@,
                old(work_stack)@,
                recursive,
                path@,
                depth,
                fs_meta,
            ).3,
            final(self)@.grown_from(old(self)@),
    {
        let ghost tree = self@;
        let ghost before = event_views(events@);
        let ghost frames = work_stack@;
        let mut flags = Flags::from_bits(NEEDS_RECURSIVE_CRAWL);
        if recursive {
            flags.insert(MARK_RECURSIVE);
        }
        let change = PendingChange { path, flags };
        let ghost found = applied(tree, change@, fs_meta);
        proof {
            lemma_applied(tree, change@, fs_meta);
            lemma_frames_grown(tree, found.0, frames);
        }
        let (node, _) = self.apply_change(&change, fs_meta, work_stack, events);
        let ghost kept = self@;
        if node.is_some() {
            self.clear_mark(node.idx());
        }
        let ghost met = self@;
        proof {
            assert(met.grown_from(tree));
            lemma_frames_grown(tree, met, frames);
            if marks_on_frames(tree, frames) {
                lemma_marks_kept(tree, kept, frames);
                if node.is_some() {
                    lemma_marks_met(kept, frames, node.0 as int);
                }
                lemma_unwound_marks(met, frames, depth);
            }
        }
        self.unwind(depth, work_stack, events);
        let ghost left = unwound(met, frames, depth);
        proof {
            assert((before + found.1) + left.1 =~= before + (found.1 + left.1));
            assert forall|i: int| 0 <= i < tree.nodes.len() implies (#[trigger] self@.nodes[i]).path
                == tree.nodes[i].path && (tree.nodes[i].children.present()
                ==> self@.nodes[i].children == tree.nodes[i].children) by {
                assert(met.nodes[i].path == self@.nodes[i].path);
                assert(met.nodes[i].children == self@.nodes[i].children);
            }
        }
        if node.is_some() && self.nodes[node.idx()].meta.is_dir() && recursive {
            if self.nodes[node.idx()].children.is_some() {
                let ghost after = self@;
                self.flag_children(node.idx());
                work_stack.push((node, depth));
                proof {
                    if marks_on_frames(tree, frames) {
                        lemma_marks_pushed(after, left.2, node.0 as int, depth);
                    }
                    assert forall|f: int| 0 <= f < work_stack@.len() implies crawl_frame_ok(
                        self@,
                        #[trigger] work_stack@[f],
                    ) by {
                        if f < left.2.len() {
                            assert(crawl_frame_ok(after, left.2[f]));
                        }
                        assert(after.nodes[work_stack@[f].0.0 as int].children
                            == self@.nodes[work_stack@[f].0.0 as int].children);
                    }
                    assert forall|i: int| 0 <= i < tree.nodes.len() implies (
                    #[trigger] self@.nodes[i]).path == tree.nodes[i].path && (
                    tree.nodes[i].children.present() ==> self@.nodes[i].children
                        == tree.nodes[i].children) by {
                        assert(after.nodes[i].path == self@.nodes[i].path);
                        assert(after.nodes[i].children == self@.nodes[i].children);
                    }
                }
            }
            true
        } else {
            false
        }
    }

    /// Ends a crawl: every directory that the walk was still in is settled.
    pub fn crawl_done(&mut self, work_stack: &mut Vec<(NodeId, usize)>, events: &mut Vec<Event>)
        requires
            old(self).wf(),
            crawl_frames_ok(old(self)@, old(work_stack)@),
        ensures
            marks_on_frames(old(self)@, old(work_stack)@) ==> unmarked(final(self)@),
            final(self)@.grown_from(old(self)@),
            final(self).wf(),
            final(work_stack)@.len() == 0,
            old(self)@.same_shape(final(self)@),
            final(self)@ == unwound(old(self)@, old(work_stack)@, 0).0,
            event_views(final(events)@) == event_views(old(events)@) + unwound(
                old(self)@,
                old(work_stack)@,
                0,
            ).1,
    {
        proof {
            lemma_unwound_all(self@, work_stack@);
            if marks_on_frames(self@, work_stack@) {
                lemma_unwound_marks(self@, work_stack@, 0);
                lemma_no_frames_no_marks(
                    unwound(self@, work_stack@, 0).0,
                    unwound(self@, work_stack@, 0).2,
                );
            }
        }
        self.unwind(0, work_stack, events);
    }

    /// Takes in one entry of the first crawl below a new root, of which a
    /// `stat` found `fs_meta`: the path is added to the tree without any
    /// event. A directory that was added for a recursive watch is to be
    /// watched; a directory that was refused is not gone into. An entry
    /// that was refused and is no directory does not stop the walk of the
    /// directory that holds it.
    pub fn crawl_root(&mut self, path: CanonicalPathBuf, recursive: bool, fs_meta: Option<Metadata>) -> (step:
        Walk)
        requires
            old(self).wf(),
            old(self)@.has_room(),
        ensures
            final(self)@.keeps(old(self)@),
            final(self)@.grown_from(old(self)@),
            final(self).wf(),
            final(self)@ == added(old(self)@, path@, recursive, false, fs_meta).0,
            step == match added(old(self)@, path@, recursive, false, fs_meta).1 {
                Some(id) => if final(self)@.nodes[id.0 as int].meta is Dir && recursive {
                    Walk::Watch
                } else {
                    Walk::Next
                },
                None => match fs_meta {
                    Some(meta) => if meta.is_dir {
                        Walk::SkipDir
                    } else {
                        Walk::Next
                    },
                    None => Walk::Next,
                },
            },
    {
        proof {
            lemma_added(self@, path@, recursive, false, fs_meta);
        }
        match self.add(path, recursive, false, fs_meta) {
            Some(id) => {
                if self.nodes[id.idx()].meta.is_dir() && recursive {
                    Walk::Watch
                } else {
                    Walk::Next
                }
            },
            None => match fs_meta {
                Some(meta) => if meta.is_dir {
                    Walk::SkipDir
                } else {
                    Walk::Next
                },
                None => Walk::Next,
            },
        }
    }
}

/// The changes of one drain of the queue, in ascending order of their
/// paths, and how far they have been applied.
pub struct Transaction {
    changes: Vec<PendingChange>,
    next: usize,
}

impl Transaction {
    /// The changes of the transaction, in the order in which they are
    /// applied.
    pub closed spec fn changes(&self) -> Seq<ChangeView> {
        change_views(self.changes@)
    }

    /// The number of changes that are done with.
    pub closed spec fn position(&self) -> int {
        self.next as int
    }

    /// The position lies within the changes, which stand in ascending
    /// order of their paths.
    pub closed spec fn wf(&self) -> bool {
        self.next <= self.changes@.len() && ascending(change_views(self.changes@))
    }

    /// The changes of a transaction stand in ascending order of their
    /// paths, and the position lies within them.
    pub proof fn lemma_in_order(&self)
        requires
            self.wf(),
        ensures
            ascending(self.changes()),
            0 <= self.position() <= self.changes().len(),
    {
    }

    /// Takes everything that is queued into a transaction.
    pub fn new(pending: &mut PendingChanges) -> (transaction: Transaction)
        requires
            old(pending).wf(),
        ensures
            final(pending).wf(),
            final(pending)@.len() == 0,
            final(pending).needs_recrawl() == old(pending).needs_recrawl(),
            transaction.wf(),
            transaction.position() == 0,
            transaction.changes().to_multiset() == old(pending)@.to_multiset(),
            ascending(transaction.changes()),
    {
        Transaction { changes: pending.drain(), next: 0 }
    }

    /// The change that is applied next, or `None` when all are done with.
    pub fn peek(&self) -> (change: Option<&PendingChange>)
        requires
            self.wf(),
        ensures
            match change {
                Some(change) => self.position() < self.changes().len() && change@
                    == self.changes()[self.position()],
                None => self.position() == self.changes().len(),
            },
    {
        if self.next < self.changes.len() {
            Some(&self.changes[self.next])
        } else {
            None
        }
    }
}

impl FileTree {
    /// Applies the next change of `transaction`, given what a `stat` of
    /// its path found, and passes over the changes that a crawl will see
    /// to. Gives the directory to crawl, if a crawl is due.
    pub fn apply_next(
        &mut self,
        transaction: &mut Transaction,
        fs_meta: Option<Metadata>,
        work_stack: &mut Vec<(NodeId, usize)>,
        events: &mut Vec<Event>,
    ) -> (crawl: Option<NodeId>)
        requires
            old(self).wf(),
            old(self)@.has_room(),
            old(transaction).wf(),
            old(transaction).position() < old(transaction).changes().len(),
        ensures
            final(self)@.keeps(old(self)@),
            applied(
                old(self)@,
                old(transaction).changes()[old(transaction).position()],
                fs_meta,
            ).3 && old(transaction).changes()[old(transaction).position()].path.len() > 0
                ==> forall|j: int|
                final(transaction).position() <= j < old(transaction).changes().len() ==> !is_below(
                    #[trigger] old(transaction).changes()[j].path,
                    old(transaction).changes()[old(transaction).position()].path,
                ),
            final(transaction).position() <= final(transaction).changes().len(),
            final(self)@.grown_from(old(self)@),
            final(self).wf(),
            final(transaction).wf(),
            final(work_stack)@ == old(work_stack)@,
            final(transaction).changes() == old(transaction).changes(),
            final(self)@ == transacted(
                old(self)@,
                old(transaction).changes(),
                old(transaction).position(),
                fs_meta,
            ).0,
            event_views(final(events)@) == event_views(old(events)@) + transacted(
                old(self)@,
                old(transaction).changes(),
                old(transaction).position(),
                fs_meta,
            ).1,
            final(transaction).position() == transacted(
                old(self)@,
                old(transaction).changes(),
                old(transaction).position(),
                fs_meta,
            ).2,
            crawl == transacted(
                old(self)@,
                old(transaction).changes(),
                old(transaction).position(),
                fs_meta,
            ).3,
            old(transaction).position() < final(transaction).position(),
            match crawl {
                Some(id) => id.0 < final(self)@.nodes.len(),
                None => true,
            },
    {
        let ghost changes = transaction.changes();
        let at: usize = transaction.next;
        let total: usize = transaction.changes.len();
        assert(changes.len() == total);
        proof {
            lemma_applied(self@, changes[at as int], fs_meta);
            if changes[at as int].path.len() > 0 {
                lemma_passed_over(changes, at as int);
            }
        }
        let (node, recurse) = self.apply_change(&transaction.changes[at], fs_meta, work_stack, events);
        transaction.next = at + 1;
        if !recurse {
            return None;
        }
        let mut crawl: Option<NodeId> = None;
        if node.is_some() && self.nodes[node.idx()].meta.is_dir() {
            crawl = Some(node);
        }
        while transaction.next < transaction.changes.len() && transaction.changes[at].path.is_parent_of(
            &transaction.changes[transaction.next].path,
        )
            invariant
                at < transaction.next <= transaction.changes@.len(),
                transaction.changes() == changes,
                skip_below(changes, changes[at as int].path, transaction.next as int) == skip_below(
                    changes,
                    changes[at as int].path,
                    at + 1,
                ),
            decreases transaction.changes@.len() - transaction.next,
        {
            transaction.next = transaction.next + 1;
        }
        crawl
    }

    /// Applies the next change of `transaction` as `apply_next` does.
    /// Where that gives a directory to crawl, the filter is asked once
    /// more whether it ignores the directory, with the path of the change:
    /// a crawl costs much. A directory that it ignores is not crawled.
    pub fn apply_transaction<F: Filter>(
        &mut self,
        transaction: &mut Transaction,
        fs_meta: Option<Metadata>,
        filter: &F,
        work_stack: &mut Vec<(NodeId, usize)>,
        events: &mut Vec<Event>,
    ) -> (crawl: Option<NodeId>)
        requires
            old(self).wf(),
            old(self)@.has_room(),
            old(transaction).wf(),
            old(transaction).position() < old(transaction).changes().len(),
        ensures
            final(self)@.keeps(old(self)@),
            applied(
                old(self)@,
                old(transaction).changes()[old(transaction).position()],
                fs_meta,
            ).3 && old(transaction).changes()[old(transaction).position()].path.len() > 0
                ==> forall|j: int|
                final(transaction).position() <= j < old(transaction).changes().len() ==> !is_below(
                    #[trigger] old(transaction).changes()[j].path,
                    old(transaction).changes()[old(transaction).position()].path,
                ),
            transacted(
                old(self)@,
                old(transaction).changes(),
                old(transaction).position(),
                fs_meta,
            ).3.is_some() ==> exists|asked: &[u8], ignored: bool|
                asked@ == old(transaction).changes()[old(transaction).position()].path
                    && #[trigger] call_ensures(
                    F::ignore_path,
                    (filter, asked, Some(true)),
                    ignored,
                ) && (ignored <==> crawl.is_none()),
            final(transaction).position() <= final(transaction).changes().len(),
            final(self)@.grown_from(old(self)@),
            old(transaction).position() < final(transaction).position(),
            final(self).wf(),
            final(transaction).wf(),
            final(work_stack)@ == old(work_stack)@,
            final(transaction).changes() == old(transaction).changes(),
            final(self)@ == transacted(
                old(self)@,
                old(transaction).changes(),
                old(transaction).position(),
                fs_meta,
            ).0,
            event_views(final(events)@) == event_views(old(events)@) + transacted(
                old(self)@,
                old(transaction).changes(),
                old(transaction).position(),
                fs_meta,
            ).1,
            final(transaction).position() == transacted(
                old(self)@,
                old(transaction).changes(),
                old(transaction).position(),
                fs_meta,
            ).2,
            crawl.is_none() || crawl == transacted(
                old(self)@,
                old(transaction).changes(),
                old(transaction).position(),
                fs_meta,
            ).3,
            match crawl {
                Some(id) => id.0 < final(self)@.nodes.len(),
                None => true,
            },
    {
        let at: usize = transaction.next;
        match self.apply_next(transaction, fs_meta, work_stack, events) {
            Some(node) => {
                assert(at < transaction.changes@.len());
                let asked = transaction.changes[at].path.logical();
                let ignored = filter.ignore_path(asked, Some(true));
                assert(call_ensures(F::ignore_path, (filter, asked, Some(true)), ignored));
                if ignored {
                    None
                } else {
                    Some(node)
                }
            },
            None => None,
        }
    }
}

/// Goes through the paths of the nodes of a tree, in the order in which
/// the nodes were made.
pub struct TreeIter<'a> {
    nodes: &'a [FsNode],
    next: usize,
}

impl<'a> TreeIter<'a> {
    /// The paths that are still to come.
    pub closed spec fn remaining(&self) -> Seq<Seq<u8>> {
        if self.next <= self.nodes@.len() {
            self.nodes@.subrange(self.next as int, self.nodes@.len() as int).map_values(
                |node: FsNode| node@.path,
            )
        } else {
            Seq::empty()
        }
    }

    /// The next path, or `None` when all were given.
    pub fn next(&mut self) -> (path: Option<&'a CanonicalPathBuf>)
        ensures
            match path {
                Some(path) => old(self).remaining().len() > 0 && path@ == old(self).remaining()[0]
                    && final(self).remaining() == old(self).remaining().skip(1),
                None => old(self).remaining().len() == 0 && final(self).remaining().len() == 0,
            },
    {
        if self.next < self.nodes.len() {
            let node = &self.nodes[self.next];
            self.next = self.next + 1;
            assert(self.remaining() =~= old(self).remaining().skip(1));
            Some(&node.path)
        } else {
            None
        }
    }
}

impl FileTree {
    /// Goes through the paths of all nodes.
    pub fn iter(&self) -> (iter: TreeIter<'_>)
        ensures
            iter.remaining() == self@.paths(),
    {
        let iter = TreeIter { nodes: self.nodes.as_slice(), next: 0 };
        assert(iter.remaining() =~= self@.paths());
        iter
    }
}

} // verus!
