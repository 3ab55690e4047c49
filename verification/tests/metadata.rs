use filesentry::metadata::{Metadata, Timestamp};
use filesentry::tree::NodeMeta;
use filesentry::events::EventType;

#[test]
fn a_regular_file_is_a_file() {
    let meta = Metadata::from_stat(0o100644, 1_700_000_000, 5, 42, 7).unwrap();
    assert_eq!(
        meta,
        Metadata {
            is_dir: false,
            mtime: Timestamp { secs: 1_700_000_000, nanos: 5 },
            size: 42,
            inode: 7,
        }
    );
}

#[test]
fn a_directory_is_a_directory() {
    let meta = Metadata::from_stat(0o040755, 3, 4, 4096, 9).unwrap();
    assert!(meta.is_dir);
    assert_eq!(meta.size, 4096);
    assert_eq!(meta.inode, 9);
    assert_eq!(meta.mtime, Timestamp { secs: 3, nanos: 4 });
}

#[test]
fn other_kinds_are_left_out() {
    assert_eq!(Metadata::from_stat(0o120777, 1, 1, 1, 1), None);
    assert_eq!(Metadata::from_stat(0o010644, 1, 1, 1, 1), None);
    assert_eq!(Metadata::from_stat(0o140644, 1, 1, 1, 1), None);
    assert_eq!(Metadata::from_stat(0o020644, 1, 1, 1, 1), None);
    assert_eq!(Metadata::from_stat(0o060644, 1, 1, 1, 1), None);
    assert_eq!(Metadata::from_stat(0o000644, 1, 1, 1, 1), None);
}

fn file(secs: u64, size: usize) -> NodeMeta {
    NodeMeta::File { mtime: Timestamp { secs, nanos: 0 }, size }
}

#[test]
fn node_meta_is_taken_from_metadata() {
    let dir = Metadata { is_dir: true, mtime: Timestamp { secs: 1, nanos: 2 }, size: 3, inode: 4 };
    assert_eq!(NodeMeta::new(&dir), NodeMeta::Dir);
    assert!(NodeMeta::new(&dir).is_dir());
    assert!(!NodeMeta::new(&dir).is_file());
    let plain = Metadata { is_dir: false, ..dir };
    assert_eq!(
        NodeMeta::new(&plain),
        NodeMeta::File { mtime: Timestamp { secs: 1, nanos: 2 }, size: 3 }
    );
    assert!(NodeMeta::new(&plain).is_file());
    assert!(!NodeMeta::Deleted.is_dir());
    assert!(!NodeMeta::Deleted.is_file());
}

#[test]
fn change_type_reports_files_only() {
    assert_eq!(file(1, 1).change_type(&file(1, 1), false), None);
    assert_eq!(file(1, 1).change_type(&file(1, 1), true), Some(EventType::Modified));
    assert_eq!(file(1, 1).change_type(&file(2, 1), false), Some(EventType::Modified));
    assert_eq!(file(1, 1).change_type(&file(1, 2), false), Some(EventType::Modified));
    assert_eq!(
        file(1, 1).change_type(
            &NodeMeta::File { mtime: Timestamp { secs: 1, nanos: 1 }, size: 1 },
            false
        ),
        Some(EventType::Modified)
    );
    assert_eq!(NodeMeta::Deleted.change_type(&file(1, 1), false), Some(EventType::Create));
    assert_eq!(NodeMeta::Dir.change_type(&file(1, 1), false), Some(EventType::Create));
    assert_eq!(file(1, 1).change_type(&NodeMeta::Deleted, false), Some(EventType::Delete));
    assert_eq!(file(1, 1).change_type(&NodeMeta::Dir, true), Some(EventType::Delete));
    assert_eq!(NodeMeta::Dir.change_type(&NodeMeta::Dir, true), None);
    assert_eq!(NodeMeta::Dir.change_type(&NodeMeta::Deleted, true), None);
    assert_eq!(NodeMeta::Deleted.change_type(&NodeMeta::Dir, true), None);
    assert_eq!(NodeMeta::Deleted.change_type(&NodeMeta::Deleted, false), None);
}
