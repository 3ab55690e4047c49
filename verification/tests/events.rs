use filesentry::events::{Event, EventDebouncer, EventType};
use filesentry::CanonicalPathBuf;

fn path(bytes: &[u8]) -> CanonicalPathBuf {
    CanonicalPathBuf::assert_canonicalized(bytes)
}

fn batch(debouncer: &mut EventDebouncer) -> Vec<(Vec<u8>, EventType)> {
    debouncer
        .take()
        .as_slice()
        .iter()
        .map(|event| (event.path.as_bytes().to_vec(), event.ty))
        .collect()
}

#[test]
fn merge_follows_the_table() {
    let (create, delete, modified, tempfile) =
        (EventType::Create, EventType::Delete, EventType::Modified, EventType::Tempfile);
    assert_eq!(create.merge(create), Some(create));
    assert_eq!(create.merge(delete), None);
    assert_eq!(create.merge(modified), Some(create));
    assert_eq!(modified.merge(create), Some(modified));
    assert_eq!(modified.merge(delete), Some(delete));
    assert_eq!(modified.merge(modified), Some(modified));
    assert_eq!(delete.merge(create), Some(modified));
    assert_eq!(delete.merge(delete), Some(delete));
    assert_eq!(delete.merge(modified), Some(delete));
    assert_eq!(create.merge(tempfile), Some(create));
}

#[test]
fn a_new_debouncer_is_empty() {
    let mut debouncer = EventDebouncer::new();
    assert!(debouncer.is_empty());
    assert_eq!(debouncer.len(), 0);
    assert!(batch(&mut debouncer).is_empty());
}

#[test]
fn first_reports_are_kept_in_order() {
    let mut debouncer = EventDebouncer::new();
    debouncer.add(path(b"/b"), EventType::Modified);
    debouncer.add(path(b"/a"), EventType::Create);
    debouncer.add(path(b"/c"), EventType::Delete);
    assert!(!debouncer.is_empty());
    assert_eq!(
        batch(&mut debouncer),
        vec![
            (b"/b".to_vec(), EventType::Modified),
            (b"/a".to_vec(), EventType::Create),
            (b"/c".to_vec(), EventType::Delete),
        ]
    );
    assert!(debouncer.is_empty());
}

#[test]
fn create_then_delete_collapses() {
    let mut debouncer = EventDebouncer::new();
    debouncer.add(path(b"/keep"), EventType::Create);
    debouncer.add(path(b"/tmp"), EventType::Create);
    debouncer.add(path(b"/tmp"), EventType::Delete);
    assert!(!debouncer.is_empty());
    assert_eq!(batch(&mut debouncer), vec![(b"/keep".to_vec(), EventType::Create)]);
}

#[test]
fn only_dropped_entries_make_an_empty_batch() {
    let mut debouncer = EventDebouncer::new();
    debouncer.add(path(b"/tmp"), EventType::Create);
    debouncer.add(path(b"/tmp"), EventType::Delete);
    assert!(debouncer.is_empty());
    assert_eq!(debouncer.len(), 1);
    assert!(batch(&mut debouncer).is_empty());
    assert_eq!(debouncer.len(), 0);
}

#[test]
fn tempfiles_are_signalled_on_request() {
    let mut debouncer = EventDebouncer::with_tempfiles(true);
    debouncer.add(path(b"/tmp"), EventType::Create);
    debouncer.add(path(b"/tmp"), EventType::Delete);
    assert!(!debouncer.is_empty());
    assert_eq!(batch(&mut debouncer), vec![(b"/tmp".to_vec(), EventType::Tempfile)]);
}

#[test]
fn a_dropped_path_starts_over() {
    let mut debouncer = EventDebouncer::new();
    debouncer.add(path(b"/tmp"), EventType::Create);
    debouncer.add(path(b"/tmp"), EventType::Delete);
    debouncer.add(path(b"/tmp"), EventType::Create);
    assert_eq!(batch(&mut debouncer), vec![(b"/tmp".to_vec(), EventType::Create)]);
}

#[test]
fn delete_then_create_is_modified() {
    let mut debouncer = EventDebouncer::new();
    debouncer.add(path(b"/f"), EventType::Delete);
    debouncer.add(path(b"/f"), EventType::Create);
    assert_eq!(batch(&mut debouncer), vec![(b"/f".to_vec(), EventType::Modified)]);
}

#[test]
fn create_modify_delete_is_never_three_events() {
    let mut debouncer = EventDebouncer::new();
    debouncer.add(path(b"/f"), EventType::Create);
    debouncer.add(path(b"/f"), EventType::Modified);
    debouncer.add(path(b"/f"), EventType::Delete);
    assert!(batch(&mut debouncer).is_empty());
}

#[test]
fn modified_then_delete_is_delete() {
    let mut debouncer = EventDebouncer::new();
    debouncer.add(path(b"/f"), EventType::Modified);
    debouncer.add(path(b"/f"), EventType::Modified);
    debouncer.add(path(b"/f"), EventType::Delete);
    assert_eq!(batch(&mut debouncer), vec![(b"/f".to_vec(), EventType::Delete)]);
}

#[test]
fn impossible_reports_keep_the_entry() {
    let mut debouncer = EventDebouncer::new();
    debouncer.add(path(b"/m"), EventType::Modified);
    debouncer.add(path(b"/m"), EventType::Create);
    debouncer.add(path(b"/c"), EventType::Create);
    debouncer.add(path(b"/c"), EventType::Create);
    debouncer.add(path(b"/d"), EventType::Delete);
    debouncer.add(path(b"/d"), EventType::Modified);
    assert_eq!(
        batch(&mut debouncer),
        vec![
            (b"/m".to_vec(), EventType::Modified),
            (b"/c".to_vec(), EventType::Create),
            (b"/d".to_vec(), EventType::Delete),
        ]
    );
}

#[test]
fn add_all_reports_in_order() {
    let mut debouncer = EventDebouncer::new();
    let events = vec![
        Event { path: path(b"/a"), ty: EventType::Delete },
        Event { path: path(b"/b"), ty: EventType::Create },
        Event { path: path(b"/a"), ty: EventType::Create },
    ];
    debouncer.add_all(&events);
    assert_eq!(
        batch(&mut debouncer),
        vec![(b"/a".to_vec(), EventType::Modified), (b"/b".to_vec(), EventType::Create)]
    );
}

#[test]
fn a_batch_can_be_shared() {
    let mut debouncer = EventDebouncer::new();
    debouncer.add(path(b"/a"), EventType::Create);
    let first = debouncer.take();
    let second = first.clone();
    assert_eq!(first.len(), 1);
    assert_eq!(second.len(), 1);
    assert!(!second.is_empty());
    assert_eq!(second.as_slice()[0].path.as_bytes(), b"/a");
    assert_eq!(second.as_slice()[0].ty, EventType::Create);
    let copy = second.as_slice()[0].clone();
    assert_eq!(copy.path.as_bytes(), b"/a");
}

#[test]
fn many_paths_are_found_again() {
    let mut debouncer = EventDebouncer::new();
    for i in 0..2000u32 {
        debouncer.add(path(format!("/dir/file{i}").as_bytes()), EventType::Create);
    }
    for i in (0..2000u32).filter(|i| i % 2 == 0) {
        debouncer.add(path(format!("/dir/file{i}").as_bytes()), EventType::Delete);
    }
    let batch = batch(&mut debouncer);
    assert_eq!(batch.len(), 1000);
    for (n, (path, ty)) in batch.iter().enumerate() {
        assert_eq!(path, format!("/dir/file{}", 2 * n + 1).as_bytes());
        assert_eq!(*ty, EventType::Create);
    }
}
