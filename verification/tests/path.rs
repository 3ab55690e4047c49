use filesentry::path::{bytes_eq, compare_bytes};
use filesentry::{CannonicalPath, CanonicalPathBuf};
use std::cmp::Ordering;

fn path(bytes: &[u8]) -> CanonicalPathBuf {
    CanonicalPathBuf::assert_canonicalized(bytes)
}

#[test]
fn new_path_is_empty() {
    let p = CanonicalPathBuf::new();
    assert!(p.is_empty());
    assert_eq!(p.len(), 0);
    assert_eq!(p.as_bytes(), b".");
    assert_eq!(p.as_raw_bytes(), b".\0");
    assert_eq!(p.logical(), b"");
}

#[test]
fn push_puts_a_separator_between() {
    let mut p = path(b"/a");
    p.push(b"b");
    assert_eq!(p.as_bytes(), b"/a/b");
    p.push(b"/c");
    assert_eq!(p.as_bytes(), b"/a/b/c");
    assert_eq!(p.as_raw_bytes(), b"/a/b/c\0");
    assert_eq!(p.len(), 6);
}

#[test]
fn push_raw_appends_as_is() {
    let mut p = path(b"/a");
    p.push_raw(b"bc");
    assert_eq!(p.as_bytes(), b"/abc");
    p.push_raw(b"");
    assert_eq!(p.as_bytes(), b"/abc");
    let mut e = CanonicalPathBuf::new();
    e.push_raw(b"");
    assert!(e.is_empty());
}

#[test]
fn assert_canonicalized_takes_the_bytes() {
    assert_eq!(path(b"/usr/lib").as_bytes(), b"/usr/lib");
    assert_eq!(path(b"rel").as_bytes(), b"/rel");
}

#[test]
fn pop_cuts_the_last_component() {
    let mut p = path(b"/a/b");
    assert!(p.pop());
    assert_eq!(p.as_bytes(), b"/a");
    assert_eq!(p.as_raw_bytes(), b"/a\0");
    assert!(p.pop());
    assert!(p.is_empty());
    assert!(!p.pop());
}

#[test]
fn parent_is_what_stands_before_the_last_separator() {
    let p = path(b"/a/b");
    assert_eq!(p.parent(), Some(&b"/a"[..]));
    let q = path(b"/a");
    assert_eq!(q.parent(), Some(&b""[..]));
    assert_eq!(CanonicalPathBuf::new().parent(), None);
}

#[test]
fn join_leaves_the_base_alone() {
    let base = path(b"/a");
    let child = base.join(b"b");
    assert_eq!(base.as_bytes(), b"/a");
    assert_eq!(child.as_bytes(), b"/a/b");
    let from_empty = CanonicalPathBuf::new().join(b"x");
    assert_eq!(from_empty.as_bytes(), b"/x");
}

#[test]
fn is_parent_of_wants_a_separator() {
    let a = path(b"/a");
    assert!(a.is_parent_of(&path(b"/a/b")));
    assert!(a.is_parent_of(&path(b"/a/b/c")));
    assert!(!a.is_parent_of(&path(b"/ab")));
    assert!(!a.is_parent_of(&path(b"/a")));
    assert!(!a.is_parent_of(&path(b"/b/a")));
    assert!(!CanonicalPathBuf::new().is_parent_of(&path(b"/a")));
    assert!(!a.is_parent_of(&CanonicalPathBuf::new()));
}

#[test]
fn a_directory_sorts_before_what_is_below_it() {
    let a: &CannonicalPath = &path(b"/a");
    assert_eq!(a.compare(&path(b"/a/b")), Ordering::Less);
    assert_eq!(path(b"/a/b").compare(a), Ordering::Greater);
    assert_eq!(a.compare(&path(b"/a")), Ordering::Equal);
    assert!(a.precedes(&path(b"/a/b")));
    assert!(!a.precedes(&path(b"/a")));
}

#[test]
fn order_is_as_if_a_separator_followed() {
    assert_eq!(compare_bytes(b"/a", b"/b"), Ordering::Less);
    assert_eq!(compare_bytes(b"/a-b", b"/a/b"), Ordering::Less);
    assert_eq!(compare_bytes(b"/a", b"/a-b"), Ordering::Greater);
    assert_eq!(compare_bytes(b"/a", b"/a.txt"), Ordering::Greater);
    assert_eq!(compare_bytes(b"/a/b", b"/a.txt"), Ordering::Greater);
    assert_eq!(compare_bytes(b"/a", b"/a/b"), Ordering::Less);
    assert_eq!(compare_bytes(b"/a", b"/ab"), Ordering::Less);
    assert_eq!(compare_bytes(b"/a/b", b"/ab"), Ordering::Less);
    assert_eq!(compare_bytes(b"/a", b"/a/"), Ordering::Less);
    assert_eq!(compare_bytes(b"/b", b"/a/z"), Ordering::Greater);
    assert_eq!(compare_bytes(b"", b""), Ordering::Equal);
    assert_eq!(compare_bytes(b"", b"/"), Ordering::Less);
    assert_eq!(compare_bytes(b"/x", b"/x"), Ordering::Equal);
}

#[test]
fn a_subtree_stands_together_when_sorted() {
    let mut paths: Vec<CanonicalPathBuf> =
        ["/a/b/c", "/a.txt", "/ab", "/a", "/a-b", "/a/b", "/a/z", "/", "/a0", "/a/b.c"]
            .iter()
            .map(|name| path(name.as_bytes()))
            .collect();
    paths.sort_by(|a, b| a.compare(b));
    let sorted: Vec<&[u8]> = paths.iter().map(|path| path.as_bytes()).collect();
    let expected: Vec<&[u8]> = vec![
        b"/", b"/a-b", b"/a.txt", b"/a", b"/a/b.c", b"/a/b", b"/a/b/c", b"/a/z", b"/a0", b"/ab",
    ];
    assert_eq!(sorted, expected);
    let dir = path(b"/a");
    let below: Vec<bool> = paths.iter().map(|path| dir.is_parent_of(path)).collect();
    let first = below.iter().position(|is| *is).unwrap();
    let last = below.iter().rposition(|is| *is).unwrap();
    assert!(below[first..=last].iter().all(|is| *is));
    assert_eq!(paths[first - 1].as_bytes(), b"/a");
    for outside in [&b"/a.txt"[..], b"/a-b", b"/ab", b"/a0", b"/", b"/b"] {
        let outside = path(outside);
        for inside in [&b"/a/b"[..], b"/a/b/c", b"/a/z", b"/a/b.c"] {
            assert_eq!(dir.compare(&outside), path(inside).compare(&outside));
        }
    }
}

#[test]
fn equality_is_on_the_bytes() {
    assert!(path(b"/a/b") == path(b"/a/b"));
    assert!(path(b"/a/b") != path(b"/a/c"));
    let mut p = path(b"/a");
    p.push(b"b");
    assert!(p == path(b"/a/b"));
    assert!(bytes_eq(b"abc", b"abc"));
    assert!(!bytes_eq(b"abc", b"abd"));
    assert!(!bytes_eq(b"abc", b"ab"));
}

#[test]
fn clone_shares_then_parts() {
    let p = path(b"/a");
    let mut q = p.clone();
    q.push(b"b");
    assert_eq!(p.as_bytes(), b"/a");
    assert_eq!(q.as_bytes(), b"/a/b");
}

#[test]
fn the_operators_follow_the_order_of_paths() {
    assert!(path(b"/a") < path(b"/a/b"));
    assert!(path(b"/a/b") > path(b"/a"));
    assert!(path(b"/a") <= path(b"/a"));
    assert!(path(b"/a-b") < path(b"/a/b"));
    assert_eq!(path(b"/a").partial_cmp(&path(b"/b")), Some(Ordering::Less));
    let a: &CannonicalPath = &path(b"/x");
    let b: &CannonicalPath = &path(b"/x");
    assert!(a == b);
    assert!(!(a < b));
}

#[test]
fn the_default_path_is_empty() {
    assert!(CanonicalPathBuf::default().is_empty());
    assert!(CanonicalPathBuf::default() == CanonicalPathBuf::new());
}
