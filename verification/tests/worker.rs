use filesentry::events::EventType;
use filesentry::flags::Flags;
use filesentry::metadata::{Metadata, Timestamp};
use filesentry::tree::NodeId;
use filesentry::worker::{Step, Worker};
use filesentry::CanonicalPathBuf;

fn path(bytes: &[u8]) -> CanonicalPathBuf {
    CanonicalPathBuf::assert_canonicalized(bytes)
}

fn dir_meta(inode: u64) -> Option<Metadata> {
    Some(Metadata { is_dir: true, mtime: Timestamp { secs: 1, nanos: 0 }, size: 0, inode })
}

fn root(worker: &mut Worker, name: &[u8], recursive: bool) -> NodeId {
    let id = worker.tree.add_root(path(name), recursive, dir_meta(1)).unwrap();
    worker.insert_root(id, recursive);
    id
}

fn roots(worker: &Worker) -> Vec<(Vec<u8>, bool)> {
    worker
        .roots
        .iter()
        .map(|(id, recursive)| (worker.tree.path(*id).as_bytes().to_vec(), *recursive))
        .collect()
}

#[test]
fn a_new_worker_has_nothing_to_do() {
    let mut worker = Worker::new();
    assert!(!worker.wait_for_settle());
    assert!(worker.pending_changes.is_empty());
    assert!(worker.roots.is_empty());
    assert!(worker.work_stack.is_empty());
    assert_eq!(worker.tree.len(), 0);
    assert!(matches!(worker.next_step(false), Step::Apply));
}

#[test]
fn a_settled_wait_hands_out_the_batch() {
    let mut worker = Worker::new();
    worker.events.add(path(b"/a"), EventType::Create);
    assert!(worker.wait_for_settle());
    match worker.next_step(true) {
        Step::Flush(batch) => {
            assert_eq!(batch.len(), 1);
            assert_eq!(batch.as_slice()[0].path.as_bytes(), b"/a");
            assert_eq!(batch.as_slice()[0].ty, EventType::Create);
        },
        _ => panic!("the batch is due"),
    }
    assert!(!worker.wait_for_settle());
}

#[test]
fn a_settled_wait_leaves_a_due_crawl_for_later() {
    let mut worker = Worker::new();
    worker.pending_changes.recrawl();
    assert!(matches!(worker.next_step(true), Step::Flush(_)));
    assert!(matches!(worker.next_step(false), Step::Recrawl));
    assert!(matches!(worker.next_step(false), Step::Apply));
}

#[test]
fn lost_events_come_before_single_changes() {
    let mut worker = Worker::new();
    worker.pending_changes.add_watcher(path(b"/a"), Flags::empty());
    worker.pending_changes.recrawl();
    worker.events.add(path(b"/a"), EventType::Create);
    assert!(matches!(worker.next_step(false), Step::Recrawl));
    assert!(worker.wait_for_settle());
    assert!(worker.pending_changes.is_empty());
}

#[test]
fn roots_are_kept_in_the_order_of_their_paths() {
    let mut worker = Worker::new();
    root(&mut worker, b"/m", false);
    root(&mut worker, b"/z", false);
    root(&mut worker, b"/a", false);
    root(&mut worker, b"/m/x", false);
    root(&mut worker, b"/m-1", false);
    assert_eq!(
        roots(&worker),
        vec![
            (b"/a".to_vec(), false),
            (b"/m-1".to_vec(), false),
            (b"/m".to_vec(), false),
            (b"/m/x".to_vec(), false),
            (b"/z".to_vec(), false),
        ]
    );
}

#[test]
fn a_recursive_root_takes_the_place_of_the_roots_below_it() {
    let mut worker = Worker::new();
    root(&mut worker, b"/a", false);
    root(&mut worker, b"/m/x", false);
    root(&mut worker, b"/m/x/y", true);
    root(&mut worker, b"/m/z", false);
    root(&mut worker, b"/n", false);
    root(&mut worker, b"/m", true);
    assert_eq!(
        roots(&worker),
        vec![(b"/a".to_vec(), false), (b"/m".to_vec(), true), (b"/n".to_vec(), false)]
    );
}

#[test]
fn a_root_that_is_not_recursive_evicts_nothing() {
    let mut worker = Worker::new();
    root(&mut worker, b"/m/x", true);
    root(&mut worker, b"/m", false);
    assert_eq!(roots(&worker), vec![(b"/m".to_vec(), false), (b"/m/x".to_vec(), true)]);
}

#[test]
fn every_root_below_a_recursive_root_goes() {
    let mut worker = Worker::new();
    root(&mut worker, b"/a.d", false);
    root(&mut worker, b"/a/b", true);
    root(&mut worker, b"/a-x/y", false);
    root(&mut worker, b"/a/b.c/d", false);
    root(&mut worker, b"/ab", false);
    root(&mut worker, b"/a", true);
    assert_eq!(
        roots(&worker),
        vec![
            (b"/a-x/y".to_vec(), false),
            (b"/a.d".to_vec(), false),
            (b"/a".to_vec(), true),
            (b"/ab".to_vec(), false),
        ]
    );
}

#[test]
fn a_root_that_becomes_recursive_is_kept_once() {
    let mut worker = Worker::new();
    root(&mut worker, b"/m", false);
    root(&mut worker, b"/m/x", false);
    root(&mut worker, b"/n", false);
    let id = worker.tree.add_root(path(b"/m"), true, dir_meta(1)).unwrap();
    worker.insert_root(id, true);
    assert_eq!(roots(&worker), vec![(b"/m".to_vec(), true), (b"/n".to_vec(), false)]);
    worker.insert_root(id, true);
    assert_eq!(roots(&worker), vec![(b"/m".to_vec(), true), (b"/n".to_vec(), false)]);
}
