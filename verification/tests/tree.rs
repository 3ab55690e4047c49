use filesentry::events::{Event, EventType};
use filesentry::flags::Flags;
use filesentry::metadata::{Metadata, Timestamp};
use filesentry::pending::{
    PendingChange, PendingChanges, MARK_RECURSIVE, NEEDS_RECURSIVE_CRAWL, ORIGIN_WATCHER,
};
use filesentry::tree::{visit, DirId, FileTree, NodeId, NodeMeta, Transaction, Visit, Walk};
use filesentry::CanonicalPathBuf;

fn path(bytes: &[u8]) -> CanonicalPathBuf {
    CanonicalPathBuf::assert_canonicalized(bytes)
}

fn dir(inode: u64, size: usize) -> Option<Metadata> {
    Some(Metadata { is_dir: true, mtime: Timestamp { secs: 1, nanos: 0 }, size, inode })
}

fn file(inode: u64, secs: u64) -> Option<Metadata> {
    Some(Metadata { is_dir: false, mtime: Timestamp { secs, nanos: 0 }, size: 3, inode })
}

fn change(name: &[u8], flags: u32) -> PendingChange {
    PendingChange { path: path(name), flags: Flags::from_bits(flags) }
}

fn seen(events: &[Event]) -> Vec<(Vec<u8>, EventType)> {
    events.iter().map(|event| (event.path.as_bytes().to_vec(), event.ty)).collect()
}

/// A tree with the recursive root `/r`, the directory `/r/d` and the files
/// `/r/f`, `/r/d/g` and `/r/d/e/h`.
fn grown() -> FileTree {
    let mut tree = FileTree::new();
    let mut stack = Vec::new();
    let mut events = Vec::new();
    tree.add_root(path(b"/r"), true, dir(1, 2)).unwrap();
    let crawl = NEEDS_RECURSIVE_CRAWL;
    tree.apply_change(&change(b"/r/d", crawl), dir(2, 2), &mut stack, &mut events);
    tree.apply_change(&change(b"/r/f", crawl), file(3, 1), &mut stack, &mut events);
    tree.apply_change(&change(b"/r/d/g", crawl), file(4, 1), &mut stack, &mut events);
    tree.apply_change(&change(b"/r/d/e", crawl), dir(5, 1), &mut stack, &mut events);
    tree.apply_change(&change(b"/r/d/e/h", crawl), file(6, 1), &mut stack, &mut events);
    assert_eq!(
        seen(&events),
        vec![
            (b"/r/f".to_vec(), EventType::Create),
            (b"/r/d/g".to_vec(), EventType::Create),
            (b"/r/d/e/h".to_vec(), EventType::Create),
        ]
    );
    assert!(stack.is_empty());
    tree
}

fn meta_of(tree: &FileTree, name: &[u8]) -> NodeMeta {
    tree.node(tree.find(name).unwrap()).meta()
}

#[test]
fn ids_know_whether_they_stand_for_something() {
    assert!(!NodeId::none().is_some());
    assert!(NodeId::new(0).is_some());
    assert_eq!(NodeId::new(17).idx(), 17);
    assert_eq!(NodeId::new(17), NodeId(17));
    assert!(DirId::none().is_none());
    assert!(!DirId::none().is_some());
    assert!(DirId::new(3).is_some());
    assert!(!DirId::new(3).is_none());
    assert_eq!(DirId::new(3).idx(), 3);
}

#[test]
fn a_new_tree_is_empty() {
    let tree = FileTree::new();
    assert_eq!(tree.len(), 0);
    assert!(tree.has_room());
    assert!(tree.find(b"/r").is_none());
    assert!(tree.iter().next().is_none());
}

#[test]
fn a_root_has_to_be_a_directory() {
    let mut tree = FileTree::new();
    assert_eq!(tree.add_root(path(b"/f"), true, file(1, 1)), None);
    assert_eq!(tree.add_root(path(b"/gone"), true, None), None);
    assert_eq!(tree.len(), 0);
    assert_eq!(tree.add_root(path(b"/r"), false, dir(2, 0)), Some(NodeId(0)));
    assert_eq!(tree.len(), 1);
    assert_eq!(tree.find(b"/r"), Some(NodeId(0)));
    assert_eq!(tree.node(NodeId(0)).path().as_bytes(), b"/r");
    assert_eq!(tree.node(NodeId(0)).meta(), NodeMeta::Dir);
}

#[test]
fn a_known_root_is_only_taken_for_a_recursive_watch() {
    let mut tree = FileTree::new();
    let mut stack = Vec::new();
    assert_eq!(tree.add_root(path(b"/r"), false, dir(1, 0)), Some(NodeId(0)));
    assert!(!tree.crawl(NodeId(0), &mut stack));
    assert_eq!(tree.add_root(path(b"/r"), false, dir(1, 0)), None);
    assert_eq!(tree.add_root(path(b"/r"), true, dir(1, 0)), Some(NodeId(0)));
    assert!(tree.crawl(NodeId(0), &mut stack));
    assert_eq!(tree.len(), 1);
}

#[test]
fn a_first_crawl_adds_without_events() {
    let mut tree = FileTree::new();
    tree.add_root(path(b"/r"), true, dir(1, 2)).unwrap();
    assert_eq!(tree.crawl_root(path(b"/r/d"), true, dir(2, 1)), Walk::Watch);
    assert_eq!(tree.crawl_root(path(b"/r/d/f"), true, file(3, 1)), Walk::Next);
    assert_eq!(tree.crawl_root(path(b"/r/gone"), true, None), Walk::Next);
    assert_eq!(tree.crawl_root(path(b"/x/orphan"), true, file(4, 1)), Walk::Next);
    assert_eq!(tree.crawl_root(path(b"/x/lost"), true, dir(5, 1)), Walk::SkipDir);
    assert_eq!(tree.len(), 3);
    let mut flat = FileTree::new();
    flat.add_root(path(b"/r"), false, dir(1, 2)).unwrap();
    assert_eq!(flat.crawl_root(path(b"/r/d"), false, dir(2, 1)), Walk::Next);
    assert_eq!(flat.crawl_root(path(b"/r/d"), false, dir(2, 1)), Walk::SkipDir);
}

#[test]
fn the_tree_lists_its_paths_in_the_order_they_came() {
    let tree = grown();
    let mut iter = tree.iter();
    let mut paths = Vec::new();
    while let Some(path) = iter.next() {
        paths.push(path.as_bytes().to_vec());
    }
    let expected: Vec<Vec<u8>> = ["/r", "/r/d", "/r/f", "/r/d/g", "/r/d/e", "/r/d/e/h"]
        .iter()
        .map(|name| name.as_bytes().to_vec())
        .collect();
    assert_eq!(paths, expected);
    assert_eq!(tree.len(), 6);
}

#[test]
fn an_unknown_path_needs_a_known_parent() {
    let mut tree = grown();
    let mut stack = Vec::new();
    let mut events = Vec::new();
    let result = tree.apply_change(&change(b"/r/x/y", 0), file(9, 1), &mut stack, &mut events);
    assert_eq!(result, (NodeId::none(), true));
    let result = tree.apply_change(&change(b"/r/gone", 0), None, &mut stack, &mut events);
    assert_eq!(result, (NodeId::none(), true));
    assert!(events.is_empty());
    assert_eq!(tree.len(), 6);
}

#[test]
fn a_new_node_is_as_recursive_as_its_parent() {
    let mut tree = FileTree::new();
    let mut stack = Vec::new();
    let mut events = Vec::new();
    tree.add_root(path(b"/flat"), false, dir(1, 1)).unwrap();
    let result = tree.apply_change(&change(b"/flat/d", 0), dir(2, 1), &mut stack, &mut events);
    assert_eq!(result, (NodeId(1), false));
    let result =
        tree.apply_change(&change(b"/flat/e", MARK_RECURSIVE), dir(3, 1), &mut stack, &mut events);
    assert_eq!(result, (NodeId(2), true));
    let result = tree.apply_change(&change(b"/flat/e/f", 0), file(4, 1), &mut stack, &mut events);
    assert_eq!(result, (NodeId(3), true));
    assert_eq!(seen(&events), vec![(b"/flat/e/f".to_vec(), EventType::Create)]);
}

#[test]
fn a_known_file_is_modified_when_it_changed_or_the_kernel_says_so() {
    let mut tree = grown();
    let mut stack = Vec::new();
    let mut events = Vec::new();
    let id = tree.find(b"/r/f").unwrap();
    assert_eq!(
        tree.apply_change(&change(b"/r/f", 0), file(3, 1), &mut stack, &mut events),
        (id, false)
    );
    assert!(events.is_empty());
    tree.apply_change(&change(b"/r/f", ORIGIN_WATCHER), file(3, 1), &mut stack, &mut events);
    assert_eq!(seen(&events), vec![(b"/r/f".to_vec(), EventType::Modified)]);
    events.clear();
    tree.apply_change(&change(b"/r/f", 0), file(3, 2), &mut stack, &mut events);
    assert_eq!(seen(&events), vec![(b"/r/f".to_vec(), EventType::Modified)]);
    events.clear();
    assert_eq!(
        tree.apply_change(&change(b"/r/f", 0), file(30, 2), &mut stack, &mut events),
        (id, true)
    );
    assert_eq!(seen(&events), vec![(b"/r/f".to_vec(), EventType::Modified)]);
    events.clear();
    assert_eq!(
        tree.apply_change(
            &change(b"/r/f", NEEDS_RECURSIVE_CRAWL),
            file(30, 2),
            &mut stack,
            &mut events
        ),
        (id, true)
    );
    assert!(events.is_empty());
}

#[test]
fn a_file_that_is_gone_is_deleted_and_can_come_back() {
    let mut tree = grown();
    let mut stack = Vec::new();
    let mut events = Vec::new();
    let id = tree.find(b"/r/f").unwrap();
    assert_eq!(tree.apply_change(&change(b"/r/f", 0), None, &mut stack, &mut events), (id, true));
    assert_eq!(seen(&events), vec![(b"/r/f".to_vec(), EventType::Delete)]);
    assert_eq!(meta_of(&tree, b"/r/f"), NodeMeta::Deleted);
    events.clear();
    assert_eq!(tree.apply_change(&change(b"/r/f", 0), None, &mut stack, &mut events), (id, true));
    assert!(events.is_empty());
    assert_eq!(
        tree.apply_change(&change(b"/r/f", 0), file(7, 5), &mut stack, &mut events),
        (id, true)
    );
    assert_eq!(seen(&events), vec![(b"/r/f".to_vec(), EventType::Create)]);
    assert_eq!(tree.len(), 6);
    assert_eq!(
        meta_of(&tree, b"/r/f"),
        NodeMeta::File { mtime: Timestamp { secs: 5, nanos: 0 }, size: 3 }
    );
}

#[test]
fn a_directory_that_is_gone_takes_what_is_below_it_along() {
    let mut tree = grown();
    let mut stack = vec![(NodeId(0), 7)];
    let mut events = Vec::new();
    let id = tree.find(b"/r/d").unwrap();
    assert_eq!(tree.apply_change(&change(b"/r/d", 0), None, &mut stack, &mut events), (id, true));
    assert_eq!(
        seen(&events),
        vec![(b"/r/d/g".to_vec(), EventType::Delete), (b"/r/d/e/h".to_vec(), EventType::Delete)]
    );
    assert_eq!(stack, vec![(NodeId(0), 7)]);
    for name in ["/r/d", "/r/d/g", "/r/d/e", "/r/d/e/h"] {
        assert_eq!(meta_of(&tree, name.as_bytes()), NodeMeta::Deleted);
    }
    assert_eq!(meta_of(&tree, b"/r"), NodeMeta::Dir);
    assert!(meta_of(&tree, b"/r/f").is_file());
    assert_eq!(tree.len(), 6);
}

#[test]
fn delete_rec_marks_a_node_without_children() {
    let mut tree = grown();
    let mut stack = Vec::new();
    let mut events = Vec::new();
    let id = tree.find(b"/r/f").unwrap();
    tree.delete_rec(id, &mut stack, &mut events);
    assert!(events.is_empty());
    assert_eq!(meta_of(&tree, b"/r/f"), NodeMeta::Deleted);
    let id = tree.find(b"/r/d/e").unwrap();
    tree.delete_rec(id, &mut stack, &mut events);
    assert_eq!(seen(&events), vec![(b"/r/d/e/h".to_vec(), EventType::Delete)]);
    assert!(meta_of(&tree, b"/r/d/g").is_file());
}

#[test]
fn the_walk_passes_over_the_root_and_what_is_ignored() {
    assert_eq!(visit(&(), b"/r", 0, true), Visit::Skip);
    assert_eq!(visit(&(), b"/r/.git", 0, true), Visit::Skip);
    assert_eq!(visit(&(), b"/r/.git", 1, true), Visit::SkipDir);
    assert_eq!(visit(&(), b"/r/.git", 1, false), Visit::Skip);
    assert_eq!(visit(&(), b"/r/src", 1, true), Visit::Enter);
    assert_eq!(visit(&(), b"/r/src/main", 2, false), Visit::Enter);
}

#[test]
fn a_crawl_marks_the_children_and_settles_what_it_did_not_meet() {
    let mut tree = grown();
    let mut stack = Vec::new();
    let mut events = Vec::new();
    let root = tree.find(b"/r").unwrap();
    assert!(tree.crawl(root, &mut stack));
    assert_eq!(stack, vec![(root, 0)]);
    assert!(tree.node(tree.find(b"/r/d").unwrap()).maybe_deleted_flag());
    assert!(tree.node(tree.find(b"/r/f").unwrap()).maybe_deleted_flag());
    assert!(!tree.node(tree.find(b"/r/d/g").unwrap()).maybe_deleted_flag());
    let d = tree.find(b"/r/d").unwrap();
    assert!(tree.crawl_entry(true, path(b"/r/d"), 1, dir(2, 2), &mut stack, &mut events));
    assert!(!tree.node(d).maybe_deleted_flag());
    assert_eq!(stack, vec![(root, 0), (d, 1)]);
    let e = tree.find(b"/r/d/e").unwrap();
    assert!(tree.crawl_entry(true, path(b"/r/d/e"), 2, dir(5, 1), &mut stack, &mut events));
    assert_eq!(stack, vec![(root, 0), (d, 1), (e, 2)]);
    assert!(!tree.crawl_entry(true, path(b"/r/d/e/new"), 3, file(8, 1), &mut stack, &mut events));
    assert!(!tree.crawl_entry(true, path(b"/r/late"), 1, file(9, 1), &mut stack, &mut events));
    assert_eq!(stack, vec![(root, 0)]);
    tree.crawl_done(&mut stack, &mut events);
    assert!(stack.is_empty());
    assert_eq!(
        seen(&events),
        vec![
            (b"/r/d/e/new".to_vec(), EventType::Create),
            (b"/r/late".to_vec(), EventType::Create),
            (b"/r/d/e/h".to_vec(), EventType::Delete),
            (b"/r/d/g".to_vec(), EventType::Delete),
            (b"/r/f".to_vec(), EventType::Delete),
        ]
    );
    assert_eq!(meta_of(&tree, b"/r/d/g"), NodeMeta::Deleted);
    assert_eq!(meta_of(&tree, b"/r/f"), NodeMeta::Deleted);
    assert_eq!(meta_of(&tree, b"/r/d"), NodeMeta::Dir);
}

#[test]
fn a_crawl_that_is_not_recursive_watches_nothing_below() {
    let mut tree = FileTree::new();
    let mut stack = Vec::new();
    let mut events = Vec::new();
    let root = tree.add_root(path(b"/r"), false, dir(1, 0)).unwrap();
    assert!(!tree.crawl(root, &mut stack));
    assert!(stack.is_empty());
    assert!(!tree.crawl_entry(false, path(b"/r/d"), 1, dir(2, 1), &mut stack, &mut events));
    assert!(!tree.crawl_entry(false, path(b"/r/f"), 1, file(3, 1), &mut stack, &mut events));
    assert!(stack.is_empty());
    assert!(!tree.crawl(root, &mut stack));
    assert_eq!(stack, vec![(root, 0)]);
    tree.crawl_done(&mut stack, &mut events);
    assert!(stack.is_empty());
    assert_eq!(meta_of(&tree, b"/r/f"), NodeMeta::Deleted);
    assert_eq!(
        seen(&events),
        vec![
            (b"/r/f".to_vec(), EventType::Create),
            (b"/r/d".to_vec(), EventType::Delete),
            (b"/r/f".to_vec(), EventType::Delete),
        ]
    );
}

#[test]
fn an_entry_that_is_gone_by_the_time_it_is_looked_at_is_passed_over() {
    let mut tree = grown();
    let mut stack = Vec::new();
    let mut events = Vec::new();
    let d = tree.find(b"/r/d").unwrap();
    assert!(tree.crawl(d, &mut stack));
    assert!(!tree.crawl_entry(true, path(b"/r/d/quick"), 1, None, &mut stack, &mut events));
    assert_eq!(stack, vec![(d, 0)]);
    assert!(events.is_empty());
    tree.crawl_done(&mut stack, &mut events);
    assert!(stack.is_empty());
    assert_eq!(
        seen(&events),
        vec![
            (b"/r/d/g".to_vec(), EventType::Delete),
            (b"/r/d/e".to_vec(), EventType::Delete),
            (b"/r/d/e/h".to_vec(), EventType::Delete),
        ]
    );
    assert_eq!(tree.len(), 6);
}

#[test]
fn a_transaction_passes_over_what_a_crawl_will_see() {
    let mut tree = FileTree::new();
    let mut stack = Vec::new();
    let mut events = Vec::new();
    tree.add_root(path(b"/r"), true, dir(1, 2)).unwrap();
    let mut queue = PendingChanges::new();
    for name in ["/r/d/g", "/r/d", "/r/f", "/r/d/e/h", "/r/d-x", "/r/d.txt"] {
        queue.add_watcher(path(name.as_bytes()), Flags::from_bits(NEEDS_RECURSIVE_CRAWL));
    }
    let mut transaction = Transaction::new(&mut queue);
    assert!(queue.is_empty());
    assert_eq!(transaction.peek().unwrap().path.as_bytes(), b"/r/d-x");
    let crawl = tree.apply_transaction(&mut transaction, file(3, 1), &(), &mut stack, &mut events);
    assert_eq!(crawl, None);
    assert_eq!(transaction.peek().unwrap().path.as_bytes(), b"/r/d.txt");
    let crawl = tree.apply_transaction(&mut transaction, file(4, 1), &(), &mut stack, &mut events);
    assert_eq!(crawl, None);
    assert_eq!(transaction.peek().unwrap().path.as_bytes(), b"/r/d");
    let crawl = tree.apply_transaction(&mut transaction, dir(2, 2), &(), &mut stack, &mut events);
    assert_eq!(crawl, tree.find(b"/r/d"));
    assert_eq!(transaction.peek().unwrap().path.as_bytes(), b"/r/f");
    let crawl = tree.apply_transaction(&mut transaction, file(6, 1), &(), &mut stack, &mut events);
    assert_eq!(crawl, None);
    assert!(transaction.peek().is_none());
    assert_eq!(
        seen(&events),
        vec![
            (b"/r/d-x".to_vec(), EventType::Create),
            (b"/r/d.txt".to_vec(), EventType::Create),
            (b"/r/f".to_vec(), EventType::Create),
        ]
    );
}

#[test]
fn a_crawl_leaves_no_mark_and_reports_nothing_twice() {
    let mut tree = grown();
    let mut stack = Vec::new();
    let mut events = Vec::new();
    let root = tree.find(b"/r").unwrap();
    let f = tree.find(b"/r/f").unwrap();
    let d = tree.find(b"/r/d").unwrap();
    assert!(tree.crawl(root, &mut stack));
    assert!(!tree.crawl_entry(true, path(b"/r/f"), 1, file(3, 1), &mut stack, &mut events));
    tree.crawl_done(&mut stack, &mut events);
    assert!(stack.is_empty());
    assert_eq!(
        seen(&events),
        vec![
            (b"/r/d".to_vec(), EventType::Delete),
            (b"/r/d/g".to_vec(), EventType::Delete),
            (b"/r/d/e/h".to_vec(), EventType::Delete),
        ]
    );
    for name in ["/r", "/r/d", "/r/f", "/r/d/g", "/r/d/e", "/r/d/e/h"] {
        assert!(!tree.node(tree.find(name.as_bytes()).unwrap()).maybe_deleted_flag());
    }
    assert_eq!(tree.node(d).meta(), NodeMeta::Deleted);
    assert!(tree.node(f).meta().is_file());
    events.clear();
    assert!(tree.crawl(root, &mut stack));
    assert!(!tree.crawl_entry(true, path(b"/r/f"), 1, file(3, 1), &mut stack, &mut events));
    tree.crawl_done(&mut stack, &mut events);
    assert!(events.is_empty());
    assert!(!tree.node(d).maybe_deleted_flag());
}

#[test]
fn an_ignored_directory_is_not_crawled() {
    let mut tree = FileTree::new();
    let mut stack = Vec::new();
    let mut events = Vec::new();
    tree.add_root(path(b"/r"), true, dir(1, 2)).unwrap();
    let mut queue = PendingChanges::new();
    queue.add_watcher(path(b"/r/.git"), Flags::from_bits(NEEDS_RECURSIVE_CRAWL));
    queue.add_watcher(path(b"/r/.git/config"), Flags::empty());
    let mut transaction = Transaction::new(&mut queue);
    let crawl = tree.apply_transaction(&mut transaction, dir(2, 2), &(), &mut stack, &mut events);
    assert_eq!(crawl, None);
    assert!(transaction.peek().is_none());
}
