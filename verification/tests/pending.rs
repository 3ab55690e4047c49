use filesentry::flags::Flags;
use filesentry::pending::{
    PendingChange, PendingChanges, MARK_RECURSIVE, NEEDS_NON_RECURSIVE_CRAWL,
    NEEDS_RECURSIVE_CRAWL, ORIGIN_WATCHER,
};
use filesentry::CanonicalPathBuf;

fn path(bytes: &[u8]) -> CanonicalPathBuf {
    CanonicalPathBuf::assert_canonicalized(bytes)
}

fn drained(queue: &mut PendingChanges) -> Vec<(Vec<u8>, u32)> {
    queue.drain().iter().map(|c| (c.path.as_bytes().to_vec(), c.flags.bits())).collect()
}

#[test]
fn flags_are_bits() {
    let mut flags = Flags::empty();
    assert_eq!(flags.bits(), 0);
    assert!(!flags.contains(NEEDS_RECURSIVE_CRAWL));
    flags.insert(NEEDS_RECURSIVE_CRAWL | MARK_RECURSIVE);
    assert_eq!(flags.bits(), 5);
    assert!(flags.contains(NEEDS_RECURSIVE_CRAWL));
    assert!(flags.contains(MARK_RECURSIVE));
    assert!(!flags.contains(NEEDS_RECURSIVE_CRAWL | ORIGIN_WATCHER));
    assert!(flags.intersects(NEEDS_RECURSIVE_CRAWL | ORIGIN_WATCHER));
    assert!(!flags.intersects(NEEDS_NON_RECURSIVE_CRAWL | ORIGIN_WATCHER));
    flags.remove(NEEDS_RECURSIVE_CRAWL);
    assert_eq!(flags, Flags::from_bits(MARK_RECURSIVE));
}

#[test]
fn consolidate_keeps_the_origin_out() {
    let mut change = PendingChange { path: path(b"/a"), flags: Flags::from_bits(MARK_RECURSIVE) };
    change.consolidate(Flags::from_bits(NEEDS_RECURSIVE_CRAWL | ORIGIN_WATCHER));
    assert_eq!(change.flags.bits(), NEEDS_RECURSIVE_CRAWL | MARK_RECURSIVE);
    assert_eq!(change.path.as_bytes(), b"/a");
    let copy = change.clone();
    assert_eq!(copy.flags.bits(), 5);
    assert_eq!(copy.path.as_bytes(), b"/a");
}

#[test]
fn a_new_queue_is_empty() {
    let mut queue = PendingChanges::new();
    assert!(queue.is_empty());
    assert!(!queue.take_recrawl());
    assert!(drained(&mut queue).is_empty());
}

#[test]
fn drain_yields_ascending_paths() {
    let mut queue = PendingChanges::new();
    for name in ["/r/foo/bar", "/r/foo", "/r/foo-x", "/r", "/r/zoo", "/r/foo/bar/baz", "/q"] {
        queue.add_watcher(path(name.as_bytes()), Flags::empty());
    }
    let names: Vec<Vec<u8>> = drained(&mut queue).into_iter().map(|(path, _)| path).collect();
    let expected: Vec<Vec<u8>> =
        ["/q", "/r", "/r/foo-x", "/r/foo", "/r/foo/bar", "/r/foo/bar/baz", "/r/zoo"]
            .iter()
            .map(|name| name.as_bytes().to_vec())
            .collect();
    assert_eq!(names, expected);
    assert!(queue.is_empty());
    assert!(drained(&mut queue).is_empty());
}

#[test]
fn the_same_path_coalesces() {
    let mut queue = PendingChanges::new();
    queue.add_watcher(path(b"/a"), Flags::empty());
    queue.add_watcher(path(b"/b"), Flags::from_bits(NEEDS_RECURSIVE_CRAWL));
    queue.add_watcher(path(b"/a"), Flags::from_bits(NEEDS_RECURSIVE_CRAWL));
    queue.add(PendingChange { path: path(b"/c"), flags: Flags::from_bits(MARK_RECURSIVE) });
    queue.add(PendingChange { path: path(b"/c"), flags: Flags::from_bits(ORIGIN_WATCHER) });
    assert!(!queue.is_empty());
    assert_eq!(
        drained(&mut queue),
        vec![
            (b"/a".to_vec(), NEEDS_RECURSIVE_CRAWL | ORIGIN_WATCHER),
            (b"/b".to_vec(), NEEDS_RECURSIVE_CRAWL | ORIGIN_WATCHER),
            (b"/c".to_vec(), MARK_RECURSIVE),
        ]
    );
}

#[test]
fn recrawl_empties_the_queue_and_sticks() {
    let mut queue = PendingChanges::new();
    queue.add_watcher(path(b"/a"), Flags::empty());
    queue.recrawl();
    assert!(!queue.is_empty());
    queue.add_watcher(path(b"/b"), Flags::empty());
    assert!(queue.take_recrawl());
    assert!(!queue.take_recrawl());
    assert!(queue.is_empty());
    assert!(drained(&mut queue).is_empty());
    queue.add_watcher(path(b"/b"), Flags::empty());
    assert_eq!(drained(&mut queue), vec![(b"/b".to_vec(), ORIGIN_WATCHER)]);
}

#[test]
fn a_drained_queue_can_be_filled_again() {
    let mut queue = PendingChanges::new();
    queue.add_watcher(path(b"/a"), Flags::empty());
    assert_eq!(drained(&mut queue).len(), 1);
    queue.add_watcher(path(b"/a"), Flags::from_bits(NEEDS_RECURSIVE_CRAWL));
    assert_eq!(drained(&mut queue), vec![(b"/a".to_vec(), NEEDS_RECURSIVE_CRAWL | ORIGIN_WATCHER)]);
}

#[test]
fn many_changes_come_out_sorted() {
    let mut queue = PendingChanges::new();
    for i in (0..5000u32).rev() {
        queue.add_watcher(path(format!("/dir{}/file{i:05}", i % 7).as_bytes()), Flags::empty());
    }
    for i in 0..5000u32 {
        queue.add_watcher(path(format!("/dir{}/file{i:05}", i % 7).as_bytes()), Flags::empty());
    }
    let names: Vec<Vec<u8>> = drained(&mut queue).into_iter().map(|(path, _)| path).collect();
    assert_eq!(names.len(), 5000);
    assert!(names.windows(2).all(|pair| pair[0] < pair[1]));
}

#[test]
fn the_default_queue_is_empty() {
    let mut queue = PendingChanges::default();
    assert!(queue.is_empty());
    assert_eq!(queue.len(), 0);
    queue.add_watcher(path(b"/a"), Flags::empty());
    assert_eq!(queue.len(), 1);
}
