//! Change hints that wait to be applied to the tree.

use crate::flags::Flags;
use crate::index::{file, index_clear, index_new, index_slots, indexes, lookup, Keyed, PathIndex};
use crate::path::{
    is_below, lemma_order_total, lemma_order_transitive, lemma_parent_sorts_first, path_le, path_lt,
    CanonicalPathBuf,
};
use vstd::prelude::*;

verus! {

/// For directories: crawl the whole subtree.
pub const NEEDS_RECURSIVE_CRAWL: u32 = 1;

/// For directories: look at the direct children only.
pub const NEEDS_NON_RECURSIVE_CRAWL: u32 = 2;

/// Nodes made for this change are to be watched recursively.
pub const MARK_RECURSIVE: u32 = 4;

/// The change was reported by the kernel.
pub const ORIGIN_WATCHER: u32 = 8;

/// One path that has to be looked at again, and how.
#[derive(Debug)]
pub struct PendingChange {
    pub path: CanonicalPathBuf,
    pub flags: Flags,
}

/// A pending change as a plain value.
pub ghost struct ChangeView {
    pub path: Seq<u8>,
    pub flags: u32,
}

impl View for PendingChange {
    type V = ChangeView;

    open spec fn view(&self) -> ChangeView {
        ChangeView { path: self.path@, flags: self.flags@ }
    }
}

impl Clone for PendingChange {
    fn clone(&self) -> (copy: PendingChange)
        ensures
            copy@ == self@,
    {
        PendingChange { path: self.path.clone(), flags: self.flags }
    }
}

impl PendingChange {
    /// Takes the flags of a later hint for the same path into this one.
    /// Where the later hint came from is not taken over.
    pub fn consolidate(&mut self, new: Flags)
        ensures
            final(self)@ == (ChangeView {
                path: old(self)@.path,
                flags: old(self)@.flags | (new@ & !ORIGIN_WATCHER),
            }),
    {
        let mut new = new;
        new.remove(ORIGIN_WATCHER);
        self.flags.insert(new.bits());
    }
}

/// The path of each change, in order.
pub open spec fn change_paths(changes: Seq<ChangeView>) -> Seq<Seq<u8>> {
    changes.map_values(|change: ChangeView| change.path)
}

/// Views of the changes of a list, in order.
pub open spec fn change_views(changes: Seq<PendingChange>) -> Seq<ChangeView> {
    changes.map_values(|change: PendingChange| change@)
}

impl Keyed for Vec<PendingChange> {
    open spec fn keys(&self) -> Seq<Seq<u8>> {
        change_paths(change_views(self@))
    }

    fn key_at(&self, slot: u32) -> (key: &[u8]) {
        self[slot as usize].path.logical()
    }
}

/// Where the change for `path` stands in the queue, if there is one.
pub open spec fn queued_at(changes: Seq<ChangeView>, path: Seq<u8>) -> Option<int> {
    if exists|i: int| 0 <= i < changes.len() && changes[i].path == path {
        Some(choose|i: int| 0 <= i < changes.len() && changes[i].path == path)
    } else {
        None
    }
}

/// No path is queued twice.
pub open spec fn distinct_paths(changes: Seq<ChangeView>) -> bool {
    forall|i: int, j: int|
        0 <= i < changes.len() && 0 <= j < changes.len() && changes[i].path == changes[j].path
            ==> i == j
}

/// The queue after a hint for `path` with `flags` has come in: a path that
/// is queued already takes the new flags in, but for where the hint came
/// from; another path is queued at the end.
pub open spec fn enqueue(changes: Seq<ChangeView>, path: Seq<u8>, flags: u32) -> Seq<ChangeView> {
    match queued_at(changes, path) {
        Some(i) => changes.update(
            i,
            ChangeView { path, flags: changes[i].flags | (flags & !ORIGIN_WATCHER) },
        ),
        None => changes.push(ChangeView { path, flags }),
    }
}

/// Each change comes before the next in the order of paths.
pub open spec fn ascending(changes: Seq<ChangeView>) -> bool {
    forall|i: int, j: int|
        0 <= i < j < changes.len() ==> path_lt(changes[i].path, changes[j].path)
}

/// The same with equal neighbours allowed.
pub open spec fn non_descending(changes: Seq<ChangeView>) -> bool {
    forall|i: int, j: int|
        0 <= i < j < changes.len() ==> path_le(changes[i].path, changes[j].path)
}

/// Merges two lists that are each in the order of their paths into one
/// that is.
fn merge(left: &Vec<PendingChange>, right: &Vec<PendingChange>) -> (out: Vec<PendingChange>)
    requires
        non_descending(change_views(left@)),
        non_descending(change_views(right@)),
    ensures
        change_views(out@).to_multiset() == change_views(left@).to_multiset().add(
            change_views(right@).to_multiset(),
        ),
        non_descending(change_views(out@)),
{
    let ghost a = change_views(left@);
    let ghost b = change_views(right@);
    let mut out: Vec<PendingChange> = Vec::new();
    let mut i: usize = 0;
    let mut j: usize = 0;
    proof {
        broadcast use vstd::multiset::group_multiset_axioms;

        let none = Seq::<ChangeView>::empty();
        assert(a.subrange(0, 0) =~= none);
        assert(b.subrange(0, 0) =~= none);
        assert(change_views(out@) =~= none);
        vstd::seq_lib::to_multiset_len(none);
        vstd::multiset::lemma_multiset_empty_len(none.to_multiset());
        assert(change_views(out@).to_multiset() =~= a.subrange(0, 0).to_multiset().add(
            b.subrange(0, 0).to_multiset(),
        ));
    }
    while i < left.len() || j < right.len()
        invariant
            a == change_views(left@),
            b == change_views(right@),
            non_descending(a),
            non_descending(b),
            i <= left@.len(),
            j <= right@.len(),
            change_views(out@).to_multiset() == a.subrange(0, i as int).to_multiset().add(
                b.subrange(0, j as int).to_multiset(),
            ),
            non_descending(change_views(out@)),
            forall|k: int|
                0 <= k < out@.len() && i < left@.len() ==> path_le(
                    #[trigger] change_views(out@)[k].path,
                    a[i as int].path,
                ),
            forall|k: int|
                0 <= k < out@.len() && j < right@.len() ==> path_le(
                    #[trigger] change_views(out@)[k].path,
                    b[j as int].path,
                ),
        decreases left@.len() - i + right@.len() - j,
    {
        let ghost before = change_views(out@);
        let from_left = if j >= right.len() {
            true
        } else if i >= left.len() {
            false
        } else {
            !right[j].path.precedes(&left[i].path)
        };
        if from_left {
            let ghost x = a[i as int];
            out.push(left[i].clone());
            proof {
                broadcast use vstd::multiset::group_multiset_axioms;

                assert(change_views(out@) =~= before.push(x));
                assert(a.subrange(0, i + 1) =~= a.subrange(0, i as int).push(x));
                vstd::seq_lib::to_multiset_build(before, x);
                vstd::seq_lib::to_multiset_build(a.subrange(0, i as int), x);
                assert(change_views(out@).to_multiset() =~= a.subrange(0, i + 1).to_multiset().add(
                    b.subrange(0, j as int).to_multiset(),
                ));
                if j < right@.len() {
                    lemma_order_total(x.path, b[j as int].path);
                }
                lemma_pushed_in_order(before, x, a, i as int);
            }
            i += 1;
        } else {
            let ghost x = b[j as int];
            out.push(right[j].clone());
            proof {
                broadcast use vstd::multiset::group_multiset_axioms;

                assert(change_views(out@) =~= before.push(x));
                assert(b.subrange(0, j + 1) =~= b.subrange(0, j as int).push(x));
                vstd::seq_lib::to_multiset_build(before, x);
                vstd::seq_lib::to_multiset_build(b.subrange(0, j as int), x);
                assert(change_views(out@).to_multiset() =~= a.subrange(0, i as int).to_multiset().add(
                    b.subrange(0, j + 1).to_multiset(),
                ));
                lemma_pushed_in_order(before, x, b, j as int);
            }
            j += 1;
        }
    }
    proof {
        assert(a.subrange(0, i as int) =~= a);
        assert(b.subrange(0, j as int) =~= b);
    }
    out
}

/// A list in order stays in order when a change is put at its end that
/// none of the list comes after. What was not after that change, taken
/// from an ordered list at `at`, is not after the next change of that
/// list either.
proof fn lemma_pushed_in_order(out: Seq<ChangeView>, x: ChangeView, from: Seq<ChangeView>, at: int)
    requires
        non_descending(out),
        non_descending(from),
        0 <= at < from.len(),
        from[at] == x,
        forall|k: int| 0 <= k < out.len() ==> path_le(#[trigger] out[k].path, x.path),
    ensures
        non_descending(out.push(x)),
        at + 1 < from.len() ==> forall|k: int|
            0 <= k < out.len() + 1 ==> path_le(#[trigger] out.push(x)[k].path, from[at + 1].path),
{
    let after = out.push(x);
    assert forall|p: int, q: int| 0 <= p < q < after.len() implies path_le(
        after[p].path,
        after[q].path,
    ) by {
        if q < out.len() {
            assert(path_le(out[p].path, out[q].path));
        } else {
            assert(path_le(out[p].path, x.path));
        }
    }
    if at + 1 < from.len() {
        assert(path_le(from[at].path, from[at + 1].path));
        assert forall|k: int| 0 <= k < out.len() + 1 implies path_le(
            #[trigger] after[k].path,
            from[at + 1].path,
        ) by {
            if k < out.len() {
                assert(path_le(out[k].path, x.path));
                if out[k].path != x.path && x.path != from[at + 1].path {
                    lemma_order_transitive(out[k].path, x.path, from[at + 1].path);
                }
            }
        }
    }
}

/// Puts the changes in the order of their paths.
fn sort_by_path(changes: Vec<PendingChange>) -> (sorted: Vec<PendingChange>)
    ensures
        change_views(sorted@).to_multiset() == change_views(changes@).to_multiset(),
        non_descending(change_views(sorted@)),
    decreases changes@.len(),
{
    if changes.len() <= 1 {
        return changes;
    }
    let ghost all = change_views(changes@);
    let mut left = changes;
    let mid: usize = left.len() / 2;
    let right = left.split_off(mid);
    proof {
        assert(change_views(left@) =~= all.subrange(0, mid as int));
        assert(change_views(right@) =~= all.subrange(mid as int, all.len() as int));
        assert(all =~= change_views(left@) + change_views(right@));
        vstd::seq_lib::lemma_multiset_commutative(change_views(left@), change_views(right@));
    }
    let left = sort_by_path(left);
    let right = sort_by_path(right);
    merge(&left, &right)
}

/// The hints that came in since the queue was last drained, one per path,
/// or the single note that everything has to be crawled again.
pub struct PendingChanges {
    index: PathIndex,
    changes: Vec<PendingChange>,
    recrawl: bool,
}

impl View for PendingChanges {
    type V = Seq<ChangeView>;

    /// The queued changes in the order in which their paths first came in.
    closed spec fn view(&self) -> Seq<ChangeView> {
        change_views(self.changes@)
    }
}

/// The slots of a list of the given length.
pub open spec fn all_slots(len: nat) -> Set<u32> {
    Set::new(|slot: u32| slot < len)
}

impl PendingChanges {
    /// Whether everything has to be crawled again.
    pub closed spec fn needs_recrawl(&self) -> bool {
        self.recrawl
    }

    /// The index agrees with the queue, and a queue that asks for a full
    /// crawl holds no single change.
    pub closed spec fn wf(&self) -> bool {
        &&& self@.len() <= u32::MAX
        &&& indexes(self.index, change_paths(self@), all_slots(self@.len()))
        &&& self.recrawl ==> self@.len() == 0
    }

    /// A queue that is in order holds no path twice, and holds no change
    /// at all while a full crawl is asked for.
    pub proof fn lemma_distinct(&self)
        requires
            self.wf(),
        ensures
            distinct_paths(self@),
            self@.len() <= u32::MAX,
            self.needs_recrawl() ==> self@.len() == 0,
    {
        lemma_indexed_distinct(self.index, self@);
    }

    /// An empty queue.
    pub fn new() -> (queue: PendingChanges)
        ensures
            queue.wf(),
            queue@.len() == 0,
            !queue.needs_recrawl(),
    {
        let queue = PendingChanges { index: index_new(), changes: Vec::new(), recrawl: false };
        assert(index_slots(queue.index).dom() =~= all_slots(queue@.len()));
        queue
    }

    /// The number of queued changes.
    pub fn len(&self) -> (n: usize)
        ensures
            n == self@.len(),
    {
        self.changes.len()
    }

    /// Whether there is nothing to do: no change and no full crawl.
    pub fn is_empty(&self) -> (empty: bool)
        ensures
            empty == (self@.len() == 0 && !self.needs_recrawl()),
    {
        self.changes.len() == 0 && !self.recrawl
    }

    /// Asks for a full crawl and forgets the single changes.
    pub fn recrawl(&mut self)
        requires
            old(self).wf(),
        ensures
            final(self).wf(),
            final(self)@.len() == 0,
            final(self).needs_recrawl(),
    {
        index_clear(&mut self.index);
        self.changes.clear();
        self.recrawl = true;
        assert(index_slots(self.index).dom() =~= all_slots(self@.len()));
    }

    /// Whether a full crawl was asked for; the request is taken out.
    pub fn take_recrawl(&mut self) -> (asked: bool)
        requires
            old(self).wf(),
        ensures
            final(self).wf(),
            asked == old(self).needs_recrawl(),
            !final(self).needs_recrawl(),
            final(self)@ == old(self)@,
    {
        let asked = self.recrawl;
        self.recrawl = false;
        asked
    }
}

impl PendingChanges {
    /// Queues a change, unless a full crawl is asked for anyway.
    pub fn add(&mut self, change: PendingChange)
        requires
            old(self).wf(),
            old(self)@.len() < u32::MAX,
        ensures
            final(self).wf(),
            final(self).needs_recrawl() == old(self).needs_recrawl(),
            final(self)@ == if old(self).needs_recrawl() {
                old(self)@
            } else {
                enqueue(old(self)@, change@.path, change@.flags)
            },
    {
        if self.recrawl {
            return ;
        }
        let ghost before = self@;
        let ghost live = all_slots(before.len());
        let found = lookup(&self.index, &self.changes, change.path.logical(), Ghost(live));
        proof {
            lemma_queued_at(before, change@.path, found);
        }
        match found {
            Some(slot) => {
                let ghost list = self.changes@;
                self.changes[slot as usize].consolidate(change.flags);
                proof {
                    assert(self@ =~= before.update(
                        slot as int,
                        ChangeView {
                            path: change@.path,
                            flags: before[slot as int].flags | (change@.flags & !ORIGIN_WATCHER),
                        },
                    ));
                    assert(change_paths(self@) =~= change_paths(before));
                }
            },
            None => {
                let slot: u32 = self.changes.len() as u32;
                self.changes.push(change);
                proof {
                    assert(self@ =~= before.push(change@));
                    assert(change_paths(self@) =~= change_paths(before).push(change@.path));
                }
                file(&mut self.index, &self.changes, slot, Ghost(live));
                assert(all_slots(self@.len()) =~= live.insert(slot));
            },
        }
    }

    /// Queues a hint that the kernel gave for `path`.
    pub fn add_watcher(&mut self, path: CanonicalPathBuf, flags: Flags)
        requires
            old(self).wf(),
            old(self)@.len() < u32::MAX,
        ensures
            final(self).wf(),
            final(self).needs_recrawl() == old(self).needs_recrawl(),
            final(self)@ == if old(self).needs_recrawl() {
                old(self)@
            } else {
                enqueue(old(self)@, path@, flags@ | ORIGIN_WATCHER)
            },
    {
        let mut flags = flags;
        flags.insert(ORIGIN_WATCHER);
        self.add(PendingChange { path, flags });
    }

    /// Empties the queue and hands its changes out in ascending order of
    /// their paths, so that a directory comes before whatever lies below it.
    pub fn drain(&mut self) -> (changes: Vec<PendingChange>)
        requires
            old(self).wf(),
        ensures
            final(self).wf(),
            final(self)@.len() == 0,
            final(self).needs_recrawl() == old(self).needs_recrawl(),
            change_views(changes@).to_multiset() == old(self)@.to_multiset(),
            ascending(change_views(changes@)),
    {
        let ghost before = self@;
        proof {
            lemma_indexed_distinct(self.index, before);
        }
        index_clear(&mut self.index);
        let mut changes: Vec<PendingChange> = Vec::new();
        std::mem::swap(&mut self.changes, &mut changes);
        assert(index_slots(self.index).dom() =~= all_slots(self@.len()));
        let changes = sort_by_path(changes);
        proof {
            lemma_sorted_strictly(before, change_views(changes@));
        }
        changes
    }
}

impl Default for PendingChanges {
    fn default() -> (queue: PendingChanges)
        ensures
            queue.wf(),
            queue@.len() == 0,
            !queue.needs_recrawl(),
    {
        PendingChanges::new()
    }
}

/// What a lookup among all slots finds is where the path is queued.
proof fn lemma_queued_at(changes: Seq<ChangeView>, path: Seq<u8>, found: Option<u32>)
    requires
        changes.len() <= u32::MAX,
        match found {
            Some(slot) => slot < changes.len() && change_paths(changes)[slot as int] == path,
            None => forall|slot: u32|
                all_slots(changes.len()).contains(slot) ==> change_paths(changes)[slot as int]
                    != path,
        },
        forall|a: u32, b: u32|
            all_slots(changes.len()).contains(a) && all_slots(changes.len()).contains(b)
                && change_paths(changes)[a as int] == change_paths(changes)[b as int] ==> a == b,
    ensures
        queued_at(changes, path) == match found {
            Some(slot) => Some(slot as int),
            None => None,
        },
        distinct_paths(changes),
{
    assert forall|i: int, j: int|
        0 <= i < changes.len() && 0 <= j < changes.len() && changes[i].path
            == changes[j].path implies i == j by {
        let a = i as u32;
        let b = j as u32;
        assert(all_slots(changes.len()).contains(a));
        assert(all_slots(changes.len()).contains(b));
        assert(change_paths(changes)[a as int] == changes[i].path);
        assert(change_paths(changes)[b as int] == changes[j].path);
    }
    match found {
        Some(slot) => {
            let i = choose|i: int| 0 <= i < changes.len() && changes[i].path == path;
            assert(changes[slot as int].path == path);
            assert(i == slot);
        },
        None => {
            assert forall|i: int| 0 <= i < changes.len() implies changes[i].path != path by {
                let a = i as u32;
                assert(all_slots(changes.len()).contains(a));
                assert(change_paths(changes)[a as int] == changes[i].path);
            }
        },
    }
}

/// A queue that its index covers holds no path twice.
proof fn lemma_indexed_distinct(index: PathIndex, changes: Seq<ChangeView>)
    requires
        changes.len() <= u32::MAX,
        indexes(index, change_paths(changes), all_slots(changes.len())),
    ensures
        distinct_paths(changes),
{
    assert forall|i: int, j: int|
        0 <= i < changes.len() && 0 <= j < changes.len() && changes[i].path
            == changes[j].path implies i == j by {
        let a = i as u32;
        let b = j as u32;
        assert(all_slots(changes.len()).contains(a));
        assert(all_slots(changes.len()).contains(b));
        assert(change_paths(changes)[a as int] == changes[i].path);
        assert(change_paths(changes)[b as int] == changes[j].path);
    }
}

/// In ascending order a directory comes before everything below it.
pub proof fn lemma_parents_first(changes: Seq<ChangeView>, dir: int, below: int)
    requires
        ascending(changes),
        0 <= dir < changes.len(),
        0 <= below < changes.len(),
        is_below(changes[below].path, changes[dir].path),
    ensures
        dir < below,
{
    lemma_parent_sorts_first(changes[dir].path, changes[below].path);
    lemma_order_total(changes[dir].path, changes[below].path);
    if below < dir {
        assert(path_lt(changes[below].path, changes[dir].path));
    }
}

/// Sorting changes with distinct paths leaves no two neighbours equal.
pub proof fn lemma_sorted_strictly(before: Seq<ChangeView>, after: Seq<ChangeView>)
    requires
        distinct_paths(before),
        after.to_multiset() == before.to_multiset(),
        non_descending(after),
    ensures
        ascending(after),
{
    before.to_multiset_ensures();
    after.to_multiset_ensures();
    assert(before.no_duplicates());
    before.lemma_multiset_has_no_duplicates();
    after.lemma_multiset_has_no_duplicates_conv();
    assert forall|i: int, j: int| 0 <= i < j < after.len() implies path_lt(
        after[i].path,
        after[j].path,
    ) by {
        assert(path_le(after[i].path, after[j].path));
        if after[i].path == after[j].path {
            assert(after.contains(after[i]));
            assert(after.contains(after[j]));
            assert(after.to_multiset().count(after[i]) > 0);
            assert(after.to_multiset().count(after[j]) > 0);
            assert(before.contains(after[i]));
            assert(before.contains(after[j]));
            let a = choose|a: int| 0 <= a < before.len() && before[a] == after[i];
            let b = choose|b: int| 0 <= b < before.len() && before[b] == after[j];
            assert(a == b);
        }
    }
}

} // verus!
