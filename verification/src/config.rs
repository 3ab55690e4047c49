//! The filter that decides which paths are not watched.

use crate::buffer::last_index_of;
use crate::path::{lemma_parent_at, lemma_parent_none, parent_bytes, PATH_SEPARATOR};
use vstd::prelude::*;

verus! {

/// The directory that holds `path`, as the standard library sees it for an
/// absolute path: the root directory holds the entries directly below it
/// and is held by nothing.
pub open spec fn parent_dir(path: Seq<u8>) -> Option<Seq<u8>> {
    match parent_bytes(path) {
        None => None,
        Some(parent) => if parent.len() > 0 {
            Some(parent)
        } else if path.len() > 1 {
            Some(seq![PATH_SEPARATOR])
        } else {
            None
        },
    }
}

/// Whether `ignored` holds of `path` or of a directory above it.
pub open spec fn any_ancestor(ignored: spec_fn(Seq<u8>) -> bool, path: Seq<u8>) -> bool
    decreases path.len(),
{
    ignored(path) || match parent_dir(path) {
        Some(parent) => if parent.len() < path.len() {
            any_ancestor(ignored, parent)
        } else {
            false
        },
        None => false,
    }
}

/// The directory that holds `path`, if there is one. It is shorter than
/// `path`.
pub fn parent_dir_of(path: &[u8]) -> (parent: Option<&[u8]>)
    ensures
        match parent {
            Some(parent) => parent_dir(path@) == Some(parent@) && parent@.len() < path@.len(),
            None => parent_dir(path@).is_none(),
        },
{
    match last_index_of(PATH_SEPARATOR, path) {
        None => {
            proof {
                lemma_parent_none(path@);
            }
            None
        },
        Some(i) => {
            proof {
                lemma_parent_at(path@, i as int);
            }
            if i > 0 {
                Some(&path[0..i])
            } else if path.len() > 1 {
                let root = &path[0..1];
                assert(root@ =~= seq![PATH_SEPARATOR]);
                Some(root)
            } else {
                None
            }
        },
    }
}

/// Decides which paths are left out of the tree. `is_dir` says whether the
/// path is a directory where that is known; an implementor that gets `None`
/// should rather keep a directory than ignore it.
pub trait Filter {
    /// Whether `path` itself is ignored.
    fn ignore_path(&self, path: &[u8], is_dir: Option<bool>) -> bool;

    /// Whether `path` or a directory above it is ignored: `ignore_path` is
    /// asked about `path`, then about the directory that holds it, and so
    /// on upwards. The answer is yes only if it said yes of one of them,
    /// and no only if it said no of every one.
    fn ignore_path_rec(&self, path: &[u8], is_dir: Option<bool>) -> (ignored: bool)
        ensures
            ignored ==> any_ancestor(
                |p: Seq<u8>|
                    exists|asked: &[u8]|
                        asked@ == p && #[trigger] call_ensures(
                            Self::ignore_path,
                            (self, asked, is_dir),
                            true,
                        ),
                path@,
            ),
            !ignored ==> every_ancestor(
                |p: Seq<u8>|
                    exists|asked: &[u8]|
                        asked@ == p && #[trigger] call_ensures(
                            Self::ignore_path,
                            (self, asked, is_dir),
                            false,
                        ),
                path@,
            ),
    {
        let ghost yes = |p: Seq<u8>|
            exists|asked: &[u8]|
                asked@ == p && #[trigger] call_ensures(
                    Self::ignore_path,
                    (self, asked, is_dir),
                    true,
                );
        let ghost no = |p: Seq<u8>|
            exists|asked: &[u8]|
                asked@ == p && #[trigger] call_ensures(
                    Self::ignore_path,
                    (self, asked, is_dir),
                    false,
                );
        let mut current: &[u8] = path;
        loop
            invariant
                yes == (|p: Seq<u8>|
                    exists|asked: &[u8]|
                        asked@ == p && #[trigger] call_ensures(
                            Self::ignore_path,
                            (self, asked, is_dir),
                            true,
                        )),
                no == (|p: Seq<u8>|
                    exists|asked: &[u8]|
                        asked@ == p && #[trigger] call_ensures(
                            Self::ignore_path,
                            (self, asked, is_dir),
                            false,
                        )),
                any_ancestor(yes, current@) ==> any_ancestor(yes, path@),
                every_ancestor(no, current@) ==> every_ancestor(no, path@),
            decreases current@.len(),
        {
            let ignored = self.ignore_path(current, is_dir);
            assert(call_ensures(Self::ignore_path, (self, current, is_dir), ignored));
            if ignored {
                assert(yes(current@));
                return true;
            }
            assert(no(current@));
            match parent_dir_of(current) {
                None => {
                    return false;
                },
                Some(parent) => {
                    current = parent;
                },
            }
        }
    }
}

/// Whether `holds` holds of `path` and of every directory above it.
pub open spec fn every_ancestor(holds: spec_fn(Seq<u8>) -> bool, path: Seq<u8>) -> bool
    decreases path.len(),
{
    holds(path) && match parent_dir(path) {
        Some(parent) => if parent.len() < path.len() {
            every_ancestor(holds, parent)
        } else {
            true
        },
        None => true,
    }
}

/// The name of the directory in which git keeps its own files, `.git`.
pub open spec fn git_dir() -> Seq<u8> {
    seq![0x2eu8, 0x67u8, 0x69u8, 0x74u8]
}

/// The last component of `path` is `.git`.
pub open spec fn is_git_dir(path: Seq<u8>) -> bool {
    &&& path.len() >= 4
    &&& path.subrange(path.len() - 4, path.len() as int) == git_dir()
    &&& (path.len() == 4 || path[path.len() - 5] == PATH_SEPARATOR)
}

/// Whether the last component of `path` is `.git`.
pub fn names_git_dir(path: &[u8]) -> (named: bool)
    ensures
        named == is_git_dir(path@),
{
    let n: usize = path.len();
    if n < 4 {
        return false;
    }
    let named = path[n - 4] == 0x2e && path[n - 3] == 0x67 && path[n - 2] == 0x69 && path[n - 1]
        == 0x74;
    proof {
        let tail = path@.subrange(n - 4, n as int);
        if named {
            assert(tail =~= git_dir());
        } else {
            assert(tail[0] == path@[n - 4] && tail[1] == path@[n - 3] && tail[2] == path@[n - 2]
                && tail[3] == path@[n - 1]);
        }
    }
    named && (n == 4 || path[n - 5] == PATH_SEPARATOR)
}

/// Whether `path` is one of git's own directories or lies in one.
pub fn in_git_dir(path: &[u8]) -> (inside: bool)
    ensures
        inside == any_ancestor(|p: Seq<u8>| is_git_dir(p), path@),
{
    let ghost named = |p: Seq<u8>| is_git_dir(p);
    let mut current: &[u8] = path;
    loop
        invariant
            named == (|p: Seq<u8>| is_git_dir(p)),
            any_ancestor(named, path@) == any_ancestor(named, current@),
        decreases current@.len(),
    {
        if names_git_dir(current) {
            assert(named(current@));
            return true;
        }
        assert(!named(current@));
        match parent_dir_of(current) {
            None => {
                return false;
            },
            Some(parent) => {
                current = parent;
            },
        }
    }
}

/// Without a filter of the caller's, only git's own directories are
/// ignored.
impl Filter for () {
    fn ignore_path(&self, path: &[u8], is_dir: Option<bool>) -> (ignored: bool)
        ensures
            ignored == is_git_dir(path@),
    {
        names_git_dir(path)
    }
}

/// What `ignore_path_rec` promises of every filter says of the default
/// filter that a path is ignored exactly if it is one of git's own
/// directories or lies in one.
pub proof fn lemma_default_filter(path: Seq<u8>, is_dir: Option<bool>, ignored: bool)
    requires
        ignored ==> any_ancestor(
            |p: Seq<u8>|
                exists|asked: &[u8]|
                    asked@ == p && #[trigger] call_ensures(
                        <() as Filter>::ignore_path,
                        (&(), asked, is_dir),
                        true,
                    ),
            path,
        ),
        !ignored ==> every_ancestor(
            |p: Seq<u8>|
                exists|asked: &[u8]|
                    asked@ == p && #[trigger] call_ensures(
                        <() as Filter>::ignore_path,
                        (&(), asked, is_dir),
                        false,
                    ),
            path,
        ),
    ensures
        ignored == any_ancestor(|p: Seq<u8>| is_git_dir(p), path),
    decreases path.len(),
{
    let named = |p: Seq<u8>| is_git_dir(p);
    let yes = |p: Seq<u8>|
        exists|asked: &[u8]|
            asked@ == p && #[trigger] call_ensures(
                <() as Filter>::ignore_path,
                (&(), asked, is_dir),
                true,
            );
    let no = |p: Seq<u8>|
        exists|asked: &[u8]|
            asked@ == p && #[trigger] call_ensures(
                <() as Filter>::ignore_path,
                (&(), asked, is_dir),
                false,
            );
    assert(yes(path) ==> named(path));
    assert(no(path) ==> !named(path));
    match parent_dir(path) {
        Some(parent) => {
            if parent.len() < path.len() {
                if ignored {
                    if !yes(path) {
                        lemma_default_filter(parent, is_dir, true);
                    }
                } else {
                    lemma_default_filter(parent, is_dir, false);
                }
            }
        },
        None => {},
    }
}

} // verus!
