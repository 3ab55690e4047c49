use filesentry::events::{Event, EventType};
use filesentry::flags::Flags;
use filesentry::inotify::{
    handle_event, Watch, CREATE, DELETE, DELETE_SELF, IGNORED, ISDIR, MODIFY, QUEUE_OVERFLOW,
};
use filesentry::metadata::{Metadata, Timestamp};
use filesentry::pending::PendingChanges;
use filesentry::tree::{visit, NodeId, Transaction, Visit, Walk};
use filesentry::worker::{Step, Worker};
use filesentry::config::Filter;
use filesentry::CanonicalPathBuf;
use std::collections::{BTreeMap, HashMap, VecDeque};

const ROOT: &str = "/tmp/watched";

/// One entry of the pretended disk.
#[derive(Clone)]
struct Entry {
    is_dir: bool,
    mtime: u64,
    size: usize,
    inode: u64,
}

/// A disk that lives in memory, with a kernel that reports what happens in
/// watched directories.
struct Disk {
    entries: BTreeMap<Vec<u8>, Entry>,
    clock: u64,
    next_inode: u64,
    watches: HashMap<i32, Vec<u8>>,
    watched: HashMap<Vec<u8>, i32>,
    next_wd: i32,
    reports: VecDeque<(i32, Vec<u8>, u32)>,
    capacity: usize,
    overflowed: bool,
}

fn parent_of(path: &[u8]) -> Vec<u8> {
    let at = path.iter().rposition(|b| *b == b'/').unwrap();
    path[..at].to_vec()
}

fn name_of(path: &[u8]) -> Vec<u8> {
    let at = path.iter().rposition(|b| *b == b'/').unwrap();
    path[at + 1..].to_vec()
}

impl Disk {
    fn new(capacity: usize) -> Disk {
        Disk {
            entries: BTreeMap::new(),
            clock: 1,
            next_inode: 1,
            watches: HashMap::new(),
            watched: HashMap::new(),
            next_wd: 1,
            reports: VecDeque::new(),
            capacity,
            overflowed: false,
        }
    }

    fn report(&mut self, dir: &[u8], child: &[u8], flags: u32) {
        let Some(wd) = self.watched.get(dir).copied() else {
            return;
        };
        if self.overflowed {
            return;
        }
        if self.reports.len() >= self.capacity {
            self.overflowed = true;
            self.reports.push_back((-1, Vec::new(), QUEUE_OVERFLOW));
            return;
        }
        self.reports.push_back((wd, child.to_vec(), flags));
    }

    fn children(&self, dir: &[u8]) -> Vec<Vec<u8>> {
        let mut from = dir.to_vec();
        from.push(b'/');
        let mut to = dir.to_vec();
        to.push(b'/' + 1);
        self.entries
            .range(from.clone()..to)
            .filter(|(path, _)| !path[from.len()..].contains(&b'/'))
            .map(|(path, _)| path.clone())
            .collect()
    }

    fn stat(&self, path: &[u8]) -> Option<Metadata> {
        let entry = self.entries.get(path)?;
        let size = if entry.is_dir { self.children(path).len() } else { entry.size };
        Some(Metadata {
            is_dir: entry.is_dir,
            mtime: Timestamp { secs: entry.mtime, nanos: 0 },
            size,
            inode: entry.inode,
        })
    }

    fn put(&mut self, path: &[u8], is_dir: bool, size: usize) {
        self.clock += 1;
        self.next_inode += 1;
        let entry = Entry { is_dir, mtime: self.clock, size, inode: self.next_inode };
        self.entries.insert(path.to_vec(), entry);
    }

    fn mkdir_all(&mut self, path: &[u8]) {
        if self.entries.contains_key(path) {
            return;
        }
        self.mkdir_all(&parent_of(path));
        self.put(path, true, 0);
        self.report(&parent_of(path), &name_of(path), CREATE | ISDIR);
    }

    fn write(&mut self, path: &[u8], content: &str) {
        if let Some(entry) = self.entries.get_mut(path) {
            self.clock += 1;
            entry.mtime = self.clock;
            entry.size = content.len();
        } else {
            self.put(path, false, content.len());
            self.report(&parent_of(path), &name_of(path), CREATE);
        }
        self.report(&parent_of(path), &name_of(path), MODIFY);
    }

    fn remove_file(&mut self, path: &[u8]) {
        let entry = self.entries.remove(path).unwrap();
        assert!(!entry.is_dir);
        self.report(&parent_of(path), &name_of(path), DELETE);
    }

    fn remove_dir(&mut self, path: &[u8]) {
        assert!(self.children(path).is_empty());
        let entry = self.entries.remove(path).unwrap();
        assert!(entry.is_dir);
        self.report(path, b"", DELETE_SELF);
        self.report(path, b"", IGNORED);
        self.watched.remove(path);
        self.report(&parent_of(path), &name_of(path), DELETE | ISDIR);
    }

    fn add_watch(&mut self, path: &[u8]) -> bool {
        match self.entries.get(path) {
            Some(entry) if entry.is_dir => {},
            _ => return false,
        }
        if !self.watched.contains_key(path) {
            let wd = self.next_wd;
            self.next_wd += 1;
            self.watched.insert(path.to_vec(), wd);
            self.watches.insert(wd, path.to_vec());
        }
        true
    }
}

/// A walk of a directory of the pretended disk: the root first, then what
/// is below it, every directory before what it holds.
struct Walker {
    stack: Vec<VecDeque<Vec<u8>>>,
    descend: Option<Vec<u8>>,
    max_depth: usize,
}

impl Walker {
    fn new(root: &[u8], max_depth: usize) -> Walker {
        let mut first = VecDeque::new();
        first.push_back(root.to_vec());
        Walker { stack: vec![first], descend: None, max_depth }
    }

    fn next(&mut self, disk: &Disk) -> Option<(Vec<u8>, usize, bool)> {
        if let Some(dir) = self.descend.take() {
            self.stack.push(disk.children(&dir).into());
        }
        loop {
            let depth = self.stack.len().checked_sub(1)?;
            let Some(path) = self.stack.last_mut().unwrap().pop_front() else {
                self.stack.pop();
                continue;
            };
            let is_dir = disk.entries.get(&path).map_or(false, |entry| entry.is_dir);
            if is_dir && depth < self.max_depth {
                self.descend = Some(path.clone());
            }
            return Some((path, depth, is_dir));
        }
    }

    fn skip_current_dir(&mut self) {
        if self.descend.take().is_none() {
            self.stack.pop();
        }
    }
}

/// The watcher around the library: what the two threads and the kernel do,
/// done in turn.
struct Sim {
    disk: Disk,
    queue: PendingChanges,
    worker: Worker,
    delivered: Vec<(Vec<u8>, EventType)>,
    recrawls: usize,
    /// The watcher gets a turn after this many changes to the disk, and
    /// whenever it is asked to settle.
    turn_every: usize,
    changes: usize,
    /// Paths of which a `stat` gives nothing though a walk lists them: a
    /// link, a pipe.
    unreadable: Vec<Vec<u8>>,
}

fn canonical(path: &[u8]) -> CanonicalPathBuf {
    CanonicalPathBuf::assert_canonicalized(path)
}

impl Sim {
    fn new(capacity: usize) -> Sim {
        let mut disk = Disk::new(capacity);
        disk.put(b"/tmp", true, 0);
        Sim {
            disk,
            queue: PendingChanges::new(),
            worker: Worker::new(),
            delivered: Vec::new(),
            recrawls: 0,
            turn_every: usize::MAX,
            changes: 0,
            unreadable: Vec::new(),
        }
    }

    /// A watcher that reads what the kernel reports only now and then.
    fn with_root_slow(capacity: usize, turn_every: usize) -> Sim {
        let mut sim = Sim::with_root(capacity);
        sim.turn_every = turn_every;
        sim
    }

    fn with_root(capacity: usize) -> Sim {
        let mut sim = Sim::new(capacity);
        sim.disk.put(ROOT.as_bytes(), true, 0);
        assert!(sim.add_root(ROOT.as_bytes(), true));
        sim
    }

    fn add_root(&mut self, root: &[u8], recursive: bool) -> bool {
        if ().ignore_path_rec(root, None) {
            return true;
        }
        assert!(self.worker.tree.has_room());
        let meta = self.disk.stat(root);
        let Some(node) = self.worker.tree.add_root(canonical(root), recursive, meta) else {
            return true;
        };
        if !self.disk.add_watch(root) {
            return false;
        }
        let mut walk = Walker::new(root, if recursive { usize::MAX } else { 1 });
        while let Some((path, depth, is_dir)) = walk.next(&self.disk) {
            match visit(&(), &path, depth, is_dir) {
                Visit::Skip => continue,
                Visit::SkipDir => {
                    walk.skip_current_dir();
                    continue;
                },
                Visit::Enter => {},
            }
            assert!(self.worker.tree.has_room());
            let meta = if self.unreadable.contains(&path) { None } else { self.disk.stat(&path) };
            match self.worker.tree.crawl_root(canonical(&path), recursive, meta) {
                Walk::Next => {},
                Walk::Watch => {
                    self.disk.add_watch(&path);
                },
                Walk::SkipDir => walk.skip_current_dir(),
            }
        }
        self.worker.insert_root(node, recursive);
        true
    }

    fn ingest(&mut self) {
        while let Some((wd, child, flags)) = self.disk.reports.pop_front() {
            let event = filesentry::inotify::Event {
                wd: Watch(wd),
                child: &child,
                flags: Flags::from_bits(flags),
            };
            let dir = self.disk.watches.get(&wd).map(|dir| canonical(dir));
            let forget = handle_event(&event, dir.as_ref(), &(), &mut self.queue);
            if forget {
                self.disk.watches.remove(&wd);
            }
        }
        self.disk.overflowed = false;
    }

    fn record(&mut self, events: Vec<Event>) {
        assert!(self.worker.events.len() + events.len() < u32::MAX as usize);
        self.worker.events.add_all(&events);
    }

    fn crawl(&mut self, root: NodeId) {
        let mut events = Vec::new();
        let recursive = self.worker.tree.crawl(root, &mut self.worker.work_stack);
        let root_path = self.worker.tree.path(root).logical().to_vec();
        self.disk.add_watch(&root_path);
        let mut walk = Walker::new(&root_path, if recursive { usize::MAX } else { 1 });
        while let Some((path, depth, is_dir)) = walk.next(&self.disk) {
            match visit(&(), &path, depth, is_dir) {
                Visit::Skip => continue,
                Visit::SkipDir => {
                    walk.skip_current_dir();
                    continue;
                },
                Visit::Enter => {},
            }
            assert!(self.worker.tree.has_room());
            let meta = self.disk.stat(&path);
            let watch = self.worker.tree.crawl_entry(
                recursive,
                canonical(&path),
                depth,
                meta,
                &mut self.worker.work_stack,
                &mut events,
            );
            if watch {
                self.disk.add_watch(&path);
            }
        }
        self.worker.tree.crawl_done(&mut self.worker.work_stack, &mut events);
        self.record(events);
    }

    fn apply(&mut self) {
        let mut transaction = Transaction::new(&mut self.worker.pending_changes);
        loop {
            let path = match transaction.peek() {
                Some(change) => change.path.logical().to_vec(),
                None => break,
            };
            assert!(self.worker.tree.has_room());
            let meta = self.disk.stat(&path);
            let mut events = Vec::new();
            let crawl = self.worker.tree.apply_transaction(
                &mut transaction,
                meta,
                &(),
                &mut self.worker.work_stack,
                &mut events,
            );
            self.record(events);
            if let Some(node) = crawl {
                self.crawl(node);
            }
        }
    }

    /// Counts a change to the disk and gives the watcher its turn when it
    /// is due: it takes in what the kernel reported and works it off, but
    /// no time passes in which the tree could settle.
    fn changed(&mut self) {
        self.changes += 1;
        if self.changes % self.turn_every == 0 {
            self.run(false);
        }
    }

    /// Lets the watcher run until it has nothing left to do.
    fn settle(&mut self) {
        self.run(true);
    }

    fn run(&mut self, time_passes: bool) {
        loop {
            self.ingest();
            let settled = if !self.queue.is_empty() {
                std::mem::swap(&mut self.queue, &mut self.worker.pending_changes);
                false
            } else if time_passes && self.worker.wait_for_settle() {
                true
            } else {
                return;
            };
            match self.worker.next_step(settled) {
                Step::Flush(batch) => {
                    for event in batch.as_slice() {
                        self.delivered.push((event.path.logical().to_vec(), event.ty));
                    }
                },
                Step::Recrawl => {
                    self.recrawls += 1;
                    let roots: Vec<NodeId> =
                        self.worker.roots.iter().map(|(root, _)| *root).collect();
                    for root in roots {
                        self.crawl(root);
                    }
                },
                Step::Apply => self.apply(),
            }
        }
    }

    fn mk_write(&mut self, path: &str, content: &str) {
        let path = format!("{ROOT}/{path}").into_bytes();
        self.disk.mkdir_all(&parent_of(&path));
        self.disk.write(&path, content);
        self.changed();
    }

    fn write(&mut self, path: &str, content: &str) {
        let path = format!("{ROOT}/{path}").into_bytes();
        assert!(self.disk.entries.contains_key(&path));
        self.disk.write(&path, content);
        self.changed();
    }

    fn write_new(&mut self, path: &str, content: &str) {
        let path = format!("{ROOT}/{path}").into_bytes();
        assert!(!self.disk.entries.contains_key(&path));
        self.disk.write(&path, content);
    }

    fn rm_file(&mut self, path: &str) {
        self.disk.remove_file(format!("{ROOT}/{path}").as_bytes());
    }

    fn rm_dir(&mut self, path: &str) {
        self.disk.remove_dir(format!("{ROOT}/{path}").as_bytes());
    }

    /// Lets the watcher settle and holds what it delivered against what is
    /// expected, in any order.
    fn check(&mut self, expected: &[(&str, EventType)]) {
        self.settle();
        let mut expected: Vec<(Vec<u8>, EventType)> = expected
            .iter()
            .map(|(path, ty)| (format!("{ROOT}/{path}").into_bytes(), *ty))
            .collect();
        expected.sort_unstable();
        let mut state = std::mem::take(&mut self.delivered);
        state.sort_unstable();
        assert_eq!(state, expected);
    }
}

#[test]
fn create() {
    let mut sim = Sim::with_root(1 << 14);
    sim.mk_write("baz", "foo");
    sim.mk_write("foo/baz", "foo");
    sim.mk_write("foo/bar/baz", "foo");
    sim.check(&[
        ("foo/baz", EventType::Create),
        ("foo/bar/baz", EventType::Create),
        ("baz", EventType::Create),
    ]);
}

#[test]
fn delete() {
    let mut sim = Sim::with_root(1 << 14);
    sim.mk_write("baz", "foo");
    sim.mk_write("foo/baz", "foo");
    sim.mk_write("foo/bar/baz", "foo");
    sim.check(&[
        ("foo/baz", EventType::Create),
        ("foo/bar/baz", EventType::Create),
        ("baz", EventType::Create),
    ]);
    sim.rm_file("foo/bar/baz");
    sim.rm_dir("foo/bar");
    sim.check(&[("foo/bar/baz", EventType::Delete)]);
    sim.rm_file("baz");
    sim.check(&[("baz", EventType::Delete)]);
}

#[test]
fn modify() {
    let mut sim = Sim::with_root(1 << 14);
    sim.mk_write("baz", "content1");
    sim.mk_write("foo/baz", "content1");
    sim.mk_write("foo/bar/baz", "content1");
    sim.check(&[
        ("foo/baz", EventType::Create),
        ("foo/bar/baz", EventType::Create),
        ("baz", EventType::Create),
    ]);
    sim.write("foo/bar/baz", "content2");
    sim.check(&[("foo/bar/baz", EventType::Modified)]);
    sim.write("foo/baz", "content2");
    sim.check(&[("foo/baz", EventType::Modified)]);
    sim.rm_file("baz");
    sim.write_new("baz", "content3");
    sim.check(&[("baz", EventType::Modified)]);
}

#[test]
fn queue_overflow() {
    let mut sim = Sim::with_root_slow(1 << 14, 100_000);
    let files: Vec<String> = (0..20_0000).map(|i| format!("foo{}/bar{i}", i % 200)).collect();
    for file in &files {
        sim.mk_write(file, "content1");
    }
    let created: Vec<(&str, EventType)> =
        files.iter().map(|file| (file.as_str(), EventType::Create)).collect();
    sim.check(&created);
    for file in &files {
        sim.write(file, "content2");
    }
    let modified: Vec<(&str, EventType)> =
        files.iter().map(|file| (file.as_str(), EventType::Modified)).collect();
    sim.check(&modified);
    let recrawls = sim.recrawls;
    assert!(recrawls >= 2, "expected atleast 2 recrawls but found {recrawls}");
}

#[test]
fn recreate_after_the_delete_was_seen() {
    let mut sim = Sim::with_root(1 << 14);
    sim.mk_write("baz", "content1");
    sim.check(&[("baz", EventType::Create)]);
    sim.rm_file("baz");
    sim.ingest();
    std::mem::swap(&mut sim.queue, &mut sim.worker.pending_changes);
    assert!(matches!(sim.worker.next_step(false), Step::Apply));
    sim.apply();
    sim.write_new("baz", "content3");
    sim.check(&[("baz", EventType::Modified)]);
}

#[test]
fn a_file_that_comes_and_goes_leaves_nothing() {
    let mut sim = Sim::with_root(1 << 14);
    sim.mk_write("tmp", "x");
    sim.ingest();
    std::mem::swap(&mut sim.queue, &mut sim.worker.pending_changes);
    assert!(matches!(sim.worker.next_step(false), Step::Apply));
    sim.apply();
    sim.rm_file("tmp");
    sim.check(&[]);
}

#[test]
fn filter_rejects_root() {
    let mut sim = Sim::new(1 << 14);
    sim.disk.put(b"/tmp/.git", true, 0);
    sim.disk.put(b"/tmp/.git/objects", true, 0);
    assert!(sim.add_root(b"/tmp/.git/objects", true));
    assert!(sim.disk.watched.is_empty());
    assert_eq!(sim.worker.tree.len(), 0);
    assert!(sim.worker.roots.is_empty());
    sim.disk.write(b"/tmp/.git/objects/pack", "x");
    sim.settle();
    assert!(sim.delivered.is_empty());
    assert!(sim.disk.reports.is_empty());
}

#[test]
fn ignored_directories_are_not_entered() {
    let mut sim = Sim::with_root(1 << 14);
    sim.mk_write("src/.git/config", "x");
    sim.mk_write("src/main", "x");
    sim.check(&[("src/main", EventType::Create)]);
    let ignored = format!("{ROOT}/src/.git");
    assert!(!sim.disk.watched.contains_key(ignored.as_bytes()));
    assert!(sim.worker.tree.find(ignored.as_bytes()).is_none());
}

#[test]
fn a_crawl_finds_what_went_away_unseen() {
    let mut sim = Sim::with_root(1 << 14);
    sim.mk_write("a/one", "1");
    sim.mk_write("a/b/two", "2");
    sim.mk_write("three", "3");
    sim.check(&[
        ("a/one", EventType::Create),
        ("a/b/two", EventType::Create),
        ("three", EventType::Create),
    ]);
    let gone = format!("{ROOT}/a/b/two").into_bytes();
    sim.disk.entries.remove(&gone);
    let gone = format!("{ROOT}/a/one").into_bytes();
    sim.disk.entries.remove(&gone);
    sim.queue.recrawl();
    sim.check(&[("a/one", EventType::Delete), ("a/b/two", EventType::Delete)]);
    assert_eq!(sim.recrawls, 1);
}

#[test]
fn a_root_that_is_no_directory_is_refused() {
    let mut sim = Sim::new(1 << 14);
    sim.disk.put(b"/tmp/file", false, 3);
    assert!(sim.worker.tree.add_root(canonical(b"/tmp/file"), true, sim.disk.stat(b"/tmp/file")).is_none());
    assert!(sim.worker.tree.add_root(canonical(b"/tmp/none"), true, None).is_none());
    assert_eq!(sim.worker.tree.len(), 0);
}

#[test]
fn the_first_crawl_mirrors_the_disk() {
    let mut sim = Sim::new(1 << 14);
    for dir in ["", "/src", "/src/deep", "/empty", "/.git", "/.git/objects", "/src/.git"] {
        sim.disk.put(format!("{ROOT}{dir}").as_bytes(), true, 0);
    }
    for file in ["/a", "/src/main", "/src/deep/b", "/.git/config", "/.git/objects/x", "/src/.git/y"]
    {
        sim.disk.put(format!("{ROOT}{file}").as_bytes(), false, 1);
    }
    assert!(sim.add_root(ROOT.as_bytes(), true));
    let mut paths = Vec::new();
    let mut iter = sim.worker.tree.iter();
    while let Some(path) = iter.next() {
        paths.push(String::from_utf8(path.as_bytes().to_vec()).unwrap());
    }
    paths.sort();
    let mut expected: Vec<String> = ["", "/a", "/empty", "/src", "/src/deep", "/src/deep/b", "/src/main"]
        .iter()
        .map(|name| format!("{ROOT}{name}"))
        .collect();
    expected.sort();
    assert_eq!(paths, expected);
    let mut watched: Vec<String> =
        sim.disk.watched.keys().map(|dir| String::from_utf8(dir.clone()).unwrap()).collect();
    watched.sort();
    let mut dirs: Vec<String> =
        ["", "/empty", "/src", "/src/deep"].iter().map(|name| format!("{ROOT}{name}")).collect();
    dirs.sort();
    assert_eq!(watched, dirs);
    sim.check(&[]);
    assert_eq!(sim.worker.roots.len(), 1);
}

#[test]
fn a_root_that_is_not_recursive_sees_one_level() {
    let mut sim = Sim::new(1 << 14);
    sim.disk.put(ROOT.as_bytes(), true, 0);
    sim.disk.put(format!("{ROOT}/sub").as_bytes(), true, 0);
    sim.disk.put(format!("{ROOT}/sub/inner").as_bytes(), false, 1);
    assert!(sim.add_root(ROOT.as_bytes(), false));
    assert_eq!(sim.worker.tree.len(), 2);
    assert_eq!(sim.disk.watched.len(), 1);
    sim.mk_write("top", "x");
    sim.mk_write("sub/other", "x");
    sim.check(&[("top", EventType::Create)]);
}

/// What one window of changes amounts to: every file that is there and was
/// not was created, every file that is gone was deleted, and every file
/// that is there with another time or inode was modified.
fn net_changes(
    before: &BTreeMap<Vec<u8>, Entry>,
    after: &BTreeMap<Vec<u8>, Entry>,
) -> Vec<(Vec<u8>, EventType)> {
    let mut changes = Vec::new();
    for (path, now) in after.iter().filter(|(_, entry)| !entry.is_dir) {
        match before.get(path) {
            None => changes.push((path.clone(), EventType::Create)),
            Some(was) if was.inode != now.inode || was.mtime != now.mtime => {
                changes.push((path.clone(), EventType::Modified))
            },
            Some(_) => {},
        }
    }
    for (path, _) in before.iter().filter(|(_, entry)| !entry.is_dir) {
        if !after.contains_key(path) {
            changes.push((path.clone(), EventType::Delete));
        }
    }
    changes.sort_unstable();
    changes
}

#[test]
fn every_window_delivers_what_changed_in_it() {
    let mut sim = Sim::with_root(1 << 14);
    let mut seed: u64 = 0x2545_f491_4f6c_dd1d;
    let mut next = move |bound: u64| {
        seed ^= seed << 13;
        seed ^= seed >> 7;
        seed ^= seed << 17;
        seed % bound
    };
    for window in 0..60 {
        let before = sim.disk.entries.clone();
        for _ in 0..next(12) {
            let name = format!("d{}/e{}/f{}", next(3), next(2), next(4));
            let path = format!("{ROOT}/{name}").into_bytes();
            if sim.disk.entries.contains_key(&path) && next(3) == 0 {
                sim.rm_file(&name);
            } else {
                sim.mk_write(&name, "x");
            }
            if next(4) == 0 {
                sim.run(false);
            }
        }
        sim.settle();
        let mut delivered = std::mem::take(&mut sim.delivered);
        delivered.sort_unstable();
        assert_eq!(delivered, net_changes(&before, &sim.disk.entries), "window {window}");
        for (path, entry) in sim.disk.entries.iter().filter(|(path, _)| path.starts_with(ROOT.as_bytes())) {
            let node = sim.worker.tree.find(path).expect("every path has a node");
            assert_eq!(sim.worker.tree.node(node).meta().is_dir(), entry.is_dir);
        }
    }
}

#[test]
fn a_second_crawl_of_the_same_disk_reports_nothing() {
    let mut sim = Sim::with_root(1 << 14);
    sim.mk_write("a/one", "1");
    sim.mk_write("a/b/two", "2");
    sim.mk_write("three", "3");
    sim.settle();
    sim.delivered.clear();
    let gone = format!("{ROOT}/a/one").into_bytes();
    sim.disk.entries.remove(&gone);
    sim.queue.recrawl();
    sim.check(&[("a/one", EventType::Delete)]);
    sim.queue.recrawl();
    sim.check(&[]);
    sim.queue.recrawl();
    sim.check(&[]);
    assert_eq!(sim.recrawls, 3);
    let mut iter = sim.worker.tree.iter();
    let mut marked = 0;
    let mut id = 0;
    while let Some(_) = iter.next() {
        if sim.worker.tree.node(NodeId(id)).maybe_deleted_flag() {
            marked += 1;
        }
        id += 1;
    }
    assert_eq!(marked, 0);
}

#[test]
fn the_first_crawl_goes_on_after_what_is_no_file() {
    let mut sim = Sim::new(1 << 14);
    sim.disk.put(ROOT.as_bytes(), true, 0);
    sim.disk.put(format!("{ROOT}/a").as_bytes(), false, 1);
    sim.disk.put(format!("{ROOT}/b").as_bytes(), false, 1);
    sim.disk.put(format!("{ROOT}/c").as_bytes(), false, 1);
    sim.unreadable.push(format!("{ROOT}/b").into_bytes());
    assert!(sim.add_root(ROOT.as_bytes(), true));
    assert!(sim.worker.tree.find(format!("{ROOT}/a").as_bytes()).is_some());
    assert!(sim.worker.tree.find(format!("{ROOT}/b").as_bytes()).is_none());
    assert!(sim.worker.tree.find(format!("{ROOT}/c").as_bytes()).is_some());
}
