use filesentry::config::{in_git_dir, names_git_dir, parent_dir_of, Filter};
use std::cell::RefCell;

/// Ignores `/a` and keeps a list of what it was asked about.
struct Asked(RefCell<Vec<Vec<u8>>>);

impl Filter for Asked {
    fn ignore_path(&self, path: &[u8], _is_dir: Option<bool>) -> bool {
        self.0.borrow_mut().push(path.to_vec());
        path == b"/a"
    }
}

/// Ignores whatever holds the byte `~`, and everything when asked about
/// files.
struct Backups;

impl Filter for Backups {
    fn ignore_path(&self, path: &[u8], is_dir: Option<bool>) -> bool {
        path.contains(&b'~') || is_dir == Some(false)
    }
}

#[test]
fn without_a_filter_only_git_is_ignored() {
    assert!(().ignore_path(b"/home/me/project/.git", Some(true)));
    assert!(().ignore_path(b"/.git", None));
    assert!(().ignore_path(b".git", None));
    assert!(!().ignore_path(b"/home/me/project/.gitignore", Some(false)));
    assert!(!().ignore_path(b"/home/me/project/x.git", Some(true)));
    assert!(!().ignore_path(b"/home/me/project/.git/config", Some(false)));
    assert!(!().ignore_path(b"/home/me/project", Some(true)));
    assert!(!().ignore_path(b"git", None));
    assert!(!().ignore_path(b"", None));
}

#[test]
fn the_recursive_test_looks_at_every_ancestor() {
    assert!(().ignore_path_rec(b"/home/me/project/.git/objects/ab", None));
    assert!(().ignore_path_rec(b"/.git/objects", None));
    assert!(().ignore_path_rec(b"/home/.git", None));
    assert!(!().ignore_path_rec(b"/home/me/project/src", None));
    assert!(!().ignore_path_rec(b"/", None));
    assert!(!().ignore_path_rec(b"", None));
}

#[test]
fn a_filter_of_the_callers_is_asked() {
    assert!(Backups.ignore_path(b"/a/b~", Some(true)));
    assert!(!Backups.ignore_path(b"/a/b", Some(true)));
    assert!(Backups.ignore_path(b"/a/b", Some(false)));
    assert!(Backups.ignore_path_rec(b"/a~/b/c", Some(true)));
    assert!(Backups.ignore_path_rec(b"/~", None));
    assert!(!Backups.ignore_path_rec(b"/a/b/c", None));
}

#[test]
fn the_root_directory_holds_what_is_directly_below_it() {
    assert_eq!(parent_dir_of(b"/a/b/c"), Some(&b"/a/b"[..]));
    assert_eq!(parent_dir_of(b"/a"), Some(&b"/"[..]));
    assert_eq!(parent_dir_of(b"/"), None);
    assert_eq!(parent_dir_of(b"a"), None);
    assert_eq!(parent_dir_of(b""), None);
    assert_eq!(parent_dir_of(b"a/b"), Some(&b"a"[..]));
}

#[test]
fn git_directories_are_known_by_their_name() {
    assert!(names_git_dir(b"/p/.git"));
    assert!(!names_git_dir(b"/p/.git/x"));
    assert!(!names_git_dir(b"/p/a.git"));
    assert!(in_git_dir(b"/p/.git/x/y"));
    assert!(in_git_dir(b"/p/.git"));
    assert!(!in_git_dir(b"/p/git/x/y"));
}

#[test]
fn the_filter_is_asked_upwards_until_it_ignores() {
    let asked = Asked(RefCell::new(Vec::new()));
    assert!(asked.ignore_path_rec(b"/a/b/c", None));
    assert_eq!(*asked.0.borrow(), vec![b"/a/b/c".to_vec(), b"/a/b".to_vec(), b"/a".to_vec()]);
    let asked = Asked(RefCell::new(Vec::new()));
    assert!(!asked.ignore_path_rec(b"/x/y", None));
    assert_eq!(*asked.0.borrow(), vec![b"/x/y".to_vec(), b"/x".to_vec(), b"/".to_vec()]);
}
