//! What the kernel reports about watched directories, and what follows
//! from each report.

use crate::config::Filter;
use crate::flags::Flags;
use crate::path::{joined, CanonicalPathBuf};
use crate::pending::{enqueue, PendingChanges, NEEDS_RECURSIVE_CRAWL, ORIGIN_WATCHER};
use vstd::prelude::*;

verus! {

/// The content of a file changed.
pub const MODIFY: u32 = 0x2;

/// The attributes of a file changed.
pub const ATTRIB: u32 = 0x4;

/// A file was moved out of a watched directory.
pub const MOVED_FROM: u32 = 0x40;

/// A file was moved into a watched directory.
pub const MOVED_TO: u32 = 0x80;

/// A file was created in a watched directory.
pub const CREATE: u32 = 0x100;

/// A file was deleted from a watched directory.
pub const DELETE: u32 = 0x200;

/// The watched directory itself was deleted.
pub const DELETE_SELF: u32 = 0x400;

/// The watched directory itself was moved.
pub const MOVE_SELF: u32 = 0x800;

/// The file system that holds the watched directory was unmounted.
pub const UNMOUNT: u32 = 0x2000;

/// The kernel's queue ran over and events were lost.
pub const QUEUE_OVERFLOW: u32 = 0x4000;

/// The watch is gone, taken away by the kernel or by the watcher.
pub const IGNORED: u32 = 0x8000;

/// The subject of the event is a directory.
pub const ISDIR: u32 = 0x4000_0000;

/// The flags that tell that the watch itself is no longer good.
pub const WATCH_GONE: u32 = 0x8000 | 0x800 | 0x400 | 0x2000;

/// The number that the kernel gave to a watch.
#[derive(Debug, Clone, Copy, PartialEq, Eq, Structural, Hash)]
pub struct Watch(pub i32);

impl Watch {
    /// Whether this is the number of no watch at all.
    pub fn is_invalid(&self) -> (invalid: bool)
        ensures
            invalid == (self.0 < 0),
    {
        self.0 < 0
    }
}

/// One report of the kernel: the watch it belongs to, the name of the
/// entry it is about, empty where it is about the watched directory
/// itself, and what happened.
pub struct Event<'a> {
    pub wd: Watch,
    pub child: &'a [u8],
    pub flags: Flags,
}

/// What follows from a report.
pub ghost enum Outcome {
    /// Everything has to be crawled again.
    Recrawl,
    /// The path is queued with the flags.
    Queue(Seq<u8>, u32),
    /// Nothing.
    Nothing,
}

/// What follows from a report with the given watch, name and flags, where
/// `dir` is the directory that the watch is known to stand for, if any,
/// and `ignored` is what the filter said of the entry. Lost events, and a
/// watch that is not known though it is no good or has just gone, ask for
/// a full crawl. A report about the watched directory itself queues the
/// directory for a crawl. Any other report queues the entry, unless the
/// filter ignores it: for a crawl where it was created or deleted, else
/// for a look at the entry alone.
pub open spec fn outcome(wd: Watch, child: Seq<u8>, flags: u32, dir: Option<Seq<u8>>, ignored: bool) -> Outcome {
    if flags & QUEUE_OVERFLOW == QUEUE_OVERFLOW {
        Outcome::Recrawl
    } else {
        match dir {
            None => if wd.0 < 0 || flags & (MOVE_SELF | IGNORED) != 0 {
                Outcome::Recrawl
            } else {
                Outcome::Nothing
            },
            Some(dir) => if child.len() == 0 || flags & WATCH_GONE != 0 {
                Outcome::Queue(dir, NEEDS_RECURSIVE_CRAWL | ORIGIN_WATCHER)
            } else if ignored {
                Outcome::Nothing
            } else if flags & (CREATE | DELETE) != 0 {
                Outcome::Queue(joined(dir, child), NEEDS_RECURSIVE_CRAWL | ORIGIN_WATCHER)
            } else {
                Outcome::Queue(joined(dir, child), 0 | ORIGIN_WATCHER)
            },
        }
    }
}

/// The bytes of the directory, if there is one.
pub open spec fn dir_bytes(dir: Option<&CanonicalPathBuf>) -> Option<Seq<u8>> {
    match dir {
        Some(dir) => Some(dir@),
        None => None,
    }
}

/// The report is about an entry of a directory that the watcher knows:
/// the filter has a say in what follows from it.
pub open spec fn about_entry(child: Seq<u8>, flags: u32, known: bool) -> bool {
    &&& flags & QUEUE_OVERFLOW != QUEUE_OVERFLOW
    &&& known
    &&& child.len() != 0
    &&& flags & WATCH_GONE == 0
}

/// Whether the watch of a report is to be forgotten: it is known, and the
/// kernel says that it is gone.
pub open spec fn forgets(flags: u32, known: bool) -> bool {
    known && !(flags & QUEUE_OVERFLOW == QUEUE_OVERFLOW) && flags & IGNORED == IGNORED
}

/// What the queue is after `outcome` has been seen to.
pub open spec fn queued(before: &PendingChanges, after: &PendingChanges, outcome: Outcome) -> bool {
    match outcome {
        Outcome::Recrawl => after.needs_recrawl() && after@.len() == 0,
        Outcome::Queue(path, flags) => after.needs_recrawl() == before.needs_recrawl() && after@
            == if before.needs_recrawl() {
            before@
        } else {
            enqueue(before@, path, flags)
        },
        Outcome::Nothing => after.needs_recrawl() == before.needs_recrawl() && after@ == before@,
    }
}

/// When the kernel's queue has run over, a full crawl is asked for,
/// whatever else the report says and whatever the watcher knows.
pub proof fn lemma_overflow_recrawls(
    wd: Watch,
    child: Seq<u8>,
    flags: u32,
    dir: Option<Seq<u8>>,
    ignored: bool,
)
    requires
        flags & QUEUE_OVERFLOW == QUEUE_OVERFLOW,
    ensures
        outcome(wd, child, flags, dir, ignored) == Outcome::Recrawl,
        !about_entry(child, flags, dir.is_some()),
{
}

impl Event<'_> {
    /// Whether the report is about an entry of a directory, so that the
    /// filter has to be asked about the entry. `known` says whether the
    /// watcher knows the watch of the report.
    pub fn about_entry(&self, known: bool) -> (entry: bool)
        ensures
            entry == about_entry(self.child@, self.flags@, known),
    {
        !self.flags.contains(QUEUE_OVERFLOW) && known && self.child.len() != 0
            && !self.flags.intersects(WATCH_GONE)
    }
}

/// Takes in one report of the kernel that is not about an entry of a
/// directory. `dir` is the directory that the watch of the report stands
/// for, if the watcher knows the watch. Gives whether the watcher is to
/// forget the watch.
pub fn handle_watch_event(event: &Event<'_>, dir: Option<&CanonicalPathBuf>, changes: &mut PendingChanges) -> (forget:
    bool)
    requires
        old(changes).wf(),
        old(changes)@.len() < u32::MAX,
        !about_entry(event.child@, event.flags@, dir.is_some()),
    ensures
        final(changes).wf(),
        forget == forgets(event.flags@, dir.is_some()),
        queued(
            old(changes),
            final(changes),
            outcome(
                event.wd,
                event.child@,
                event.flags@,
                dir_bytes(dir),
                false,
            ),
        ),
{
    if event.flags.contains(QUEUE_OVERFLOW) {
        changes.recrawl();
        return false;
    }
    match dir {
        None => {
            if event.wd.is_invalid() || event.flags.intersects(MOVE_SELF | IGNORED) {
                changes.recrawl();
            }
            false
        },
        Some(dir) => {
            changes.add_watcher(dir.clone(), Flags::from_bits(NEEDS_RECURSIVE_CRAWL));
            event.flags.contains(IGNORED)
        },
    }
}

/// Takes in one report of the kernel about the entry `path` of a watched
/// directory, of which the filter said `ignored`.
pub fn handle_entry_event(flags: Flags, path: CanonicalPathBuf, ignored: bool, changes: &mut PendingChanges)
    requires
        old(changes).wf(),
        old(changes)@.len() < u32::MAX,
    ensures
        final(changes).wf(),
        queued(
            old(changes),
            final(changes),
            if ignored {
                Outcome::Nothing
            } else if flags@ & (CREATE | DELETE) != 0 {
                Outcome::Queue(path@, NEEDS_RECURSIVE_CRAWL | ORIGIN_WATCHER)
            } else {
                Outcome::Queue(path@, 0 | ORIGIN_WATCHER)
            },
        ),
{
    if ignored {
        return ;
    }
    if flags.intersects(CREATE | DELETE) {
        changes.add_watcher(path, Flags::from_bits(NEEDS_RECURSIVE_CRAWL));
    } else {
        changes.add_watcher(path, Flags::empty());
    }
}

/// Takes in one report of the kernel. `dir` is the directory that the
/// watch of the report stands for, if the watcher knows the watch. Where
/// the report is about an entry of that directory, the filter is asked
/// about the entry, with its path and whether the kernel calls it a
/// directory; what follows is `outcome` of its answer. Gives whether the
/// watcher is to forget the watch.
pub fn handle_event<F: Filter>(
    event: &Event<'_>,
    dir: Option<&CanonicalPathBuf>,
    filter: &F,
    changes: &mut PendingChanges,
) -> (forget: bool)
    requires
        old(changes).wf(),
        old(changes)@.len() < u32::MAX,
        match dir {
            Some(dir) => dir@.len() + event.child@.len() + 2 <= isize::MAX,
            None => true,
        },
    ensures
        final(changes).wf(),
        forget == forgets(event.flags@, dir.is_some()),
        queued(
            old(changes),
            final(changes),
            outcome(event.wd, event.child@, event.flags@, dir_bytes(dir), true),
        ) || queued(
            old(changes),
            final(changes),
            outcome(event.wd, event.child@, event.flags@, dir_bytes(dir), false),
        ),
        !about_entry(event.child@, event.flags@, dir.is_some()) ==> queued(
            old(changes),
            final(changes),
            outcome(
                event.wd,
                event.child@,
                event.flags@,
                dir_bytes(dir),
                false,
            ),
        ),
        about_entry(event.child@, event.flags@, dir.is_some()) ==> exists|
            asked: &[u8],
            hint: Option<bool>,
            ignored: bool,
        |
            hint == Some(event.flags@ & ISDIR == ISDIR) && asked@ == joined(
                dir_bytes(dir).unwrap(),
                event.child@,
            ) && #[trigger] call_ensures(F::ignore_path, (filter, asked, hint), ignored) && queued(
                old(changes),
                final(changes),
                outcome(event.wd, event.child@, event.flags@, dir_bytes(dir), ignored),
            ),
{
    let ghost spec_dir = dir_bytes(dir);
    if !event.about_entry(dir.is_some()) {
        let forget = handle_watch_event(event, dir, changes);
        assert(queued(
            old(changes),
            changes,
            outcome(event.wd, event.child@, event.flags@, spec_dir, false),
        ));
        return forget;
    }
    let path = match dir {
        Some(dir) => dir.join(event.child),
        None => {
            return false;
        },
    };
    let hint = Some(event.flags.contains(ISDIR));
    let asked = path.logical();
    let ghost heard = asked;
    let ignored = filter.ignore_path(asked, hint);
    assert(call_ensures(F::ignore_path, (filter, heard, hint), ignored));
    handle_entry_event(event.flags, path, ignored, changes);
    assert(queued(
        old(changes),
        changes,
        outcome(event.wd, event.child@, event.flags@, spec_dir, ignored),
    ));
    event.flags.contains(IGNORED)
}

} // verus!
