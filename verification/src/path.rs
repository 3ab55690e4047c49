//! Canonical paths: absolute, already resolved, compared byte by byte.

use crate::buffer::{
    buffer_as_slice, buffer_bytes, buffer_clone, buffer_extend, buffer_len, buffer_new,
    buffer_pop, buffer_push, buffer_truncate, last_index_of,
};
use ecow::EcoVec;
use std::cmp::Ordering;
use vstd::prelude::*;

verus! {

/// The byte that separates the components of a path, `/`.
pub const PATH_SEPARATOR: u8 = 0x2f;

/// What an empty path stands for when it is handed out as bytes: the
/// current directory, `.`.
pub const CURRENT_DIR: u8 = 0x2e;

/// The path that is made of `name` appended to `base` as a further component:
/// a separator is put between the two unless `name` brings its own.
pub open spec fn joined(base: Seq<u8>, name: Seq<u8>) -> Seq<u8> {
    if name.len() > 0 && name[0] == PATH_SEPARATOR {
        base + name
    } else {
        base.push(PATH_SEPARATOR) + name
    }
}

/// What is left of a path once its last component and the separator before
/// it are cut off; `None` for a path without a separator.
pub open spec fn parent_bytes(path: Seq<u8>) -> Option<Seq<u8>>
    decreases path.len(),
{
    if path.len() == 0 {
        None
    } else if path.last() == PATH_SEPARATOR {
        Some(path.drop_last())
    } else {
        parent_bytes(path.drop_last())
    }
}

/// `dir` followed by a separator is a proper prefix of `path`: `path` lies
/// somewhere below `dir`.
pub open spec fn is_below(path: Seq<u8>, dir: Seq<u8>) -> bool {
    &&& dir.len() < path.len()
    &&& path.subrange(0, dir.len() as int) == dir
    &&& path[dir.len() as int] == PATH_SEPARATOR
}

/// The two paths agree on their first `k` bytes.
pub open spec fn common_prefix(a: Seq<u8>, b: Seq<u8>, k: int) -> bool {
    &&& 0 <= k <= a.len()
    &&& k <= b.len()
    &&& forall|j: int| 0 <= j < k ==> a[j] == b[j]
}

/// The order of byte strings: byte by byte, and where one is a proper prefix
/// of the other, the shorter one comes first.
pub open spec fn bytes_lt(a: Seq<u8>, b: Seq<u8>) -> bool {
    exists|k: int| #[trigger]
        common_prefix(a, b, k) && k < b.len() && (k == a.len() || a[k] < b[k])
}

/// The order of paths: each path is taken with a separator behind it, and
/// the two are compared byte by byte. So a directory comes before what is
/// below it, and nothing else comes between the two.
pub open spec fn path_lt(a: Seq<u8>, b: Seq<u8>) -> bool {
    bytes_lt(a.push(PATH_SEPARATOR), b.push(PATH_SEPARATOR))
}

/// What decides the order of two paths that agree before `k` and part
/// there: the bytes at `k`, where a path that ends at `k` counts as if a
/// separator stood there.
pub open spec fn parts_before(a: Seq<u8>, b: Seq<u8>, k: int) -> bool {
    if k < a.len() && k < b.len() {
        a[k] < b[k]
    } else if k < b.len() {
        PATH_SEPARATOR <= b[k]
    } else if k < a.len() {
        a[k] < PATH_SEPARATOR
    } else {
        false
    }
}

/// `a` comes before `b`, or the two are the same path.
pub open spec fn path_le(a: Seq<u8>, b: Seq<u8>) -> bool {
    a == b || path_lt(a, b)
}

/// A canonical path. The buffer behind it ends in a NUL byte that is not part
/// of the path, so that it can be handed to the operating system as it is.
#[derive(Debug)]
pub struct CannonicalPath {
    bytes: EcoVec<u8>,
}

/// An owned canonical path that can grow and shrink by components.
#[derive(Debug)]
pub struct CanonicalPathBuf {
    path: CannonicalPath,
}

impl View for CannonicalPath {
    type V = Seq<u8>;

    /// The bytes of the path, without the terminator.
    closed spec fn view(&self) -> Seq<u8> {
        let raw = buffer_bytes(self.bytes);
        if raw.len() == 0 {
            raw
        } else {
            raw.drop_last()
        }
    }
}

impl View for CanonicalPathBuf {
    type V = Seq<u8>;

    closed spec fn view(&self) -> Seq<u8> {
        self.path@
    }
}

impl CannonicalPath {
    #[verifier::type_invariant]
    spec fn terminated(&self) -> bool {
        let raw = buffer_bytes(self.bytes);
        raw.len() == 0 || (raw.len() >= 2 && raw.last() == 0)
    }

    /// The number of bytes in the path.
    pub fn len(&self) -> (n: usize)
        ensures
            n == self@.len(),
            n < isize::MAX,
    {
        proof {
            use_type_invariant(self);
        }
        let raw: usize = buffer_len(&self.bytes);
        if raw == 0 {
            0
        } else {
            raw - 1
        }
    }

    /// The bytes of the path, without the terminator; none for the empty
    /// path.
    pub fn logical(&self) -> (bytes: &[u8])
        ensures
            bytes@ == self@,
            bytes@.len() < isize::MAX,
    {
        proof {
            use_type_invariant(self);
        }
        let raw = buffer_as_slice(&self.bytes);
        if raw.len() == 0 {
            raw
        } else {
            let n: usize = raw.len() - 1;
            let cut = &raw[0..n];
            assert(cut@ =~= raw@.drop_last());
            cut
        }
    }

    /// The bytes of the path with the terminating NUL, as the operating
    /// system wants them; an empty path is handed out as the current
    /// directory.
    pub fn as_raw_bytes(&self) -> (bytes: &[u8])
        ensures
            bytes@ == if self@.len() == 0 {
                seq![CURRENT_DIR, 0u8]
            } else {
                self@.push(0u8)
            },
    {
        proof {
            use_type_invariant(self);
        }
        let raw = buffer_as_slice(&self.bytes);
        if raw.len() == 0 {
            let dot: &[u8] = &[CURRENT_DIR, 0u8];
            assert(dot@ =~= seq![CURRENT_DIR, 0u8]);
            dot
        } else {
            assert(raw@ =~= raw@.drop_last().push(0u8));
            raw
        }
    }

    /// Whether the path has no bytes at all.
    pub fn is_empty(&self) -> (empty: bool)
        ensures
            empty == (self@.len() == 0),
    {
        proof {
            use_type_invariant(self);
        }
        buffer_len(&self.bytes) == 0
    }

    /// The bytes of the path; an empty path is handed out as the current
    /// directory.
    pub fn as_bytes(&self) -> (bytes: &[u8])
        ensures
            bytes@ == if self@.len() == 0 {
                seq![CURRENT_DIR]
            } else {
                self@
            },
    {
        proof {
            use_type_invariant(self);
        }
        let raw = buffer_as_slice(&self.bytes);
        if raw.len() == 0 {
            let dot: &[u8] = &[CURRENT_DIR];
            assert(dot@ =~= seq![CURRENT_DIR]);
            dot
        } else {
            let n: usize = raw.len() - 1;
            let cut = &raw[0..n];
            assert(cut@ =~= raw@.drop_last());
            cut
        }
    }
}

impl CannonicalPath {
    /// The path without its last component, or `None` where the path holds
    /// no separator.
    pub fn parent(&self) -> (parent: Option<&[u8]>)
        ensures
            match parent {
                Some(bytes) => parent_bytes(self@) == Some(bytes@),
                None => parent_bytes(self@).is_none(),
            },
    {
        let bytes = self.logical();
        match last_index_of(PATH_SEPARATOR, bytes) {
            Some(i) => {
                proof {
                    lemma_parent_at(bytes@, i as int);
                }
                Some(&bytes[0..i])
            },
            None => {
                proof {
                    lemma_parent_none(bytes@);
                }
                None
            },
        }
    }

    /// This path with `other` appended as a further component.
    pub fn join(&self, other: &[u8]) -> (path: CanonicalPathBuf)
        requires
            self@.len() + other@.len() + 2 <= isize::MAX,
        ensures
            path@ == joined(self@, other@),
    {
        let mut path = CanonicalPathBuf { path: self.clone() };
        path.push(other);
        path
    }

    /// Whether `other` lies somewhere below this path: this path, followed
    /// by a separator, starts `other`. The empty path is above nothing.
    pub fn is_parent_of(&self, other: &CannonicalPath) -> (above: bool)
        ensures
            above == (self@.len() > 0 && is_below(other@, self@)),
    {
        let dir = self.logical();
        let path = other.logical();
        if dir.len() == 0 || dir.len() >= path.len() {
            return false;
        }
        if path[dir.len()] != PATH_SEPARATOR {
            return false;
        }
        let head = &path[0..dir.len()];
        bytes_eq(head, dir)
    }
}

impl Clone for CannonicalPath {
    fn clone(&self) -> (copy: CannonicalPath)
        ensures
            copy@ == self@,
    {
        proof {
            use_type_invariant(self);
        }
        CannonicalPath { bytes: buffer_clone(&self.bytes) }
    }
}

impl Clone for CanonicalPathBuf {
    fn clone(&self) -> (copy: CanonicalPathBuf)
        ensures
            copy@ == self@,
    {
        CanonicalPathBuf { path: self.path.clone() }
    }
}

/// Whether two byte strings are the same.
pub fn bytes_eq(a: &[u8], b: &[u8]) -> (same: bool)
    ensures
        same == (a@ == b@),
{
    if a.len() != b.len() {
        return false;
    }
    let mut i: usize = 0;
    while i < a.len()
        invariant
            a@.len() == b@.len(),
            i <= a@.len(),
            forall|j: int| 0 <= j < i ==> a@[j] == b@[j],
        decreases a@.len() - i,
    {
        if a[i] != b[i] {
            return false;
        }
        i += 1;
    }
    assert(a@ =~= b@);
    true
}

/// Cutting a path at its last separator gives its parent.
pub proof fn lemma_parent_at(path: Seq<u8>, i: int)
    requires
        0 <= i < path.len(),
        path[i] == PATH_SEPARATOR,
        forall|j: int| i < j < path.len() ==> path[j] != PATH_SEPARATOR,
    ensures
        parent_bytes(path) == Some(path.subrange(0, i)),
    decreases path.len(),
{
    if i == path.len() - 1 {
        assert(path.drop_last() =~= path.subrange(0, i));
    } else {
        lemma_parent_at(path.drop_last(), i);
        assert(path.drop_last().subrange(0, i) =~= path.subrange(0, i));
    }
}

/// A path lies below its parent.
pub proof fn lemma_parent_is_above(path: Seq<u8>, parent: Seq<u8>)
    requires
        parent_bytes(path) == Some(parent),
    ensures
        is_below(path, parent),
    decreases path.len(),
{
    if path.last() == PATH_SEPARATOR {
        assert(path.subrange(0, parent.len() as int) =~= parent);
    } else {
        let shorter = path.drop_last();
        lemma_parent_is_above(shorter, parent);
        assert(path.subrange(0, parent.len() as int) =~= shorter.subrange(0, parent.len() as int));
    }
}

/// What lies below a directory lies below every directory above that one.
pub proof fn lemma_below_transitive(path: Seq<u8>, dir: Seq<u8>, above: Seq<u8>)
    requires
        is_below(path, dir),
        is_below(dir, above),
    ensures
        is_below(path, above),
{
    let n = above.len() as int;
    assert(path.subrange(0, n) =~= dir.subrange(0, n)) by {
        assert forall|j: int| 0 <= j < n implies path.subrange(0, n)[j] == dir.subrange(0, n)[j] by {
            assert(path.subrange(0, dir.len() as int)[j] == dir[j]);
        }
    }
    assert(path[n] == path.subrange(0, dir.len() as int)[n]);
}

/// A path without a separator has no parent.
pub proof fn lemma_parent_none(path: Seq<u8>)
    requires
        forall|j: int| 0 <= j < path.len() ==> path[j] != PATH_SEPARATOR,
    ensures
        parent_bytes(path).is_none(),
    decreases path.len(),
{
    if path.len() > 0 {
        lemma_parent_none(path.drop_last());
    }
}

impl CanonicalPathBuf {
    /// The empty path.
    pub fn new() -> (path: CanonicalPathBuf)
        ensures
            path@.len() == 0,
    {
        CanonicalPathBuf { path: CannonicalPath { bytes: buffer_new() } }
    }

    /// Appends `src` as it is, without a separator.
    pub fn push_raw(&mut self, src: &[u8])
        requires
            old(self)@.len() + src@.len() + 2 <= isize::MAX,
        ensures
            final(self)@ == old(self)@ + src@,
    {
        proof {
            use_type_invariant(&self.path);
        }
        if src.len() == 0 {
            assert(self@ + src@ =~= self@);
            return ;
        }
        let mut buf = buffer_new();
        std::mem::swap(&mut self.path.bytes, &mut buf);
        let _ = buffer_pop(&mut buf);
        buffer_extend(&mut buf, src);
        buffer_push(&mut buf, 0);
        assert(buffer_bytes(buf).drop_last() =~= old(self)@ + src@);
        self.path.bytes = buf;
    }
}

impl CanonicalPathBuf {
    /// Takes `path` as canonical without looking at it: the caller vouches
    /// that it is absolute and resolved.
    pub fn assert_canonicalized(path: &[u8]) -> (out: CanonicalPathBuf)
        requires
            path@.len() + 2 <= isize::MAX,
        ensures
            out@ == joined(Seq::<u8>::empty(), path@),
    {
        let mut out = CanonicalPathBuf::new();
        out.push(path);
        out
    }

    /// Appends `src` as a further component: a separator goes between the
    /// path and `src` unless `src` starts with one.
    pub fn push(&mut self, src: &[u8])
        requires
            old(self)@.len() + src@.len() + 2 <= isize::MAX,
        ensures
            final(self)@ == joined(old(self)@, src@),
    {
        proof {
            use_type_invariant(&self.path);
        }
        let mut buf = buffer_new();
        std::mem::swap(&mut self.path.bytes, &mut buf);
        let _ = buffer_pop(&mut buf);
        if src.len() == 0 || src[0] != PATH_SEPARATOR {
            buffer_push(&mut buf, PATH_SEPARATOR);
        }
        buffer_extend(&mut buf, src);
        buffer_push(&mut buf, 0);
        assert(buffer_bytes(buf).drop_last() =~= joined(old(self)@, src@));
        self.path.bytes = buf;
    }

    /// Cuts off the last component and the separator before it. Returns
    /// `false`, and leaves the path as it is, where it holds no separator.
    pub fn pop(&mut self) -> (popped: bool)
        ensures
            match parent_bytes(old(self)@) {
                Some(parent) => popped && final(self)@ == parent,
                None => !popped && final(self)@ == old(self)@,
            },
    {
        proof {
            use_type_invariant(&self.path);
        }
        let found = last_index_of(PATH_SEPARATOR, self.path.logical());
        match found {
            None => {
                proof {
                    lemma_parent_none(self@);
                }
                false
            },
            Some(i) => {
                proof {
                    lemma_parent_at(self@, i as int);
                }
                let mut buf = buffer_new();
                std::mem::swap(&mut self.path.bytes, &mut buf);
                buffer_truncate(&mut buf, i);
                if i > 0 {
                    buffer_push(&mut buf, 0);
                    assert(buffer_bytes(buf).drop_last() =~= old(self)@.subrange(0, i as int));
                } else {
                    assert(buffer_bytes(buf) =~= old(self)@.subrange(0, i as int));
                }
                self.path.bytes = buf;
                true
            },
        }
    }
}

impl CannonicalPath {
    /// Where this path stands relative to `other` in the order of paths.
    pub fn compare(&self, other: &CannonicalPath) -> (o: Ordering)
        ensures
            o == Ordering::Less <==> path_lt(self@, other@),
            o == Ordering::Equal <==> self@ == other@,
            o == Ordering::Greater <==> path_lt(other@, self@),
    {
        compare_bytes(self.logical(), other.logical())
    }
}

impl CannonicalPath {
    /// Whether this path comes before `other` in the order of paths.
    pub fn precedes(&self, other: &CannonicalPath) -> (before: bool)
        ensures
            before == path_lt(self@, other@),
    {
        match self.compare(other) {
            Ordering::Less => true,
            _ => false,
        }
    }
}

/// Where `a` stands relative to `b` in the order of paths.
pub open spec fn path_order(a: Seq<u8>, b: Seq<u8>) -> Ordering {
    if path_lt(a, b) {
        Ordering::Less
    } else if a == b {
        Ordering::Equal
    } else {
        Ordering::Greater
    }
}

impl PartialOrd for CannonicalPath {
    fn partial_cmp(&self, other: &CannonicalPath) -> (order: Option<Ordering>) {
        proof {
            lemma_order_total(self@, other@);
        }
        Some(self.compare(other))
    }
}

impl vstd::std_specs::cmp::PartialOrdSpecImpl for CannonicalPath {
    open spec fn obeys_partial_cmp_spec() -> bool {
        true
    }

    open spec fn partial_cmp_spec(&self, other: &CannonicalPath) -> Option<Ordering> {
        Some(path_order(self@, other@))
    }
}

impl PartialOrd for CanonicalPathBuf {
    fn partial_cmp(&self, other: &CanonicalPathBuf) -> (order: Option<Ordering>) {
        proof {
            lemma_order_total(self@, other@);
        }
        Some(self.path.compare(&other.path))
    }
}

impl vstd::std_specs::cmp::PartialOrdSpecImpl for CanonicalPathBuf {
    open spec fn obeys_partial_cmp_spec() -> bool {
        true
    }

    open spec fn partial_cmp_spec(&self, other: &CanonicalPathBuf) -> Option<Ordering> {
        Some(path_order(self@, other@))
    }
}

impl Default for CanonicalPathBuf {
    fn default() -> (path: CanonicalPathBuf)
        ensures
            path@.len() == 0,
    {
        CanonicalPathBuf::new()
    }
}

impl PartialEq for CannonicalPath {
    fn eq(&self, other: &CannonicalPath) -> (same: bool) {
        bytes_eq(self.logical(), other.logical())
    }
}

impl vstd::std_specs::cmp::PartialEqSpecImpl for CannonicalPath {
    open spec fn obeys_eq_spec() -> bool {
        true
    }

    open spec fn eq_spec(&self, other: &CannonicalPath) -> bool {
        self@ == other@
    }
}

impl PartialEq for CanonicalPathBuf {
    fn eq(&self, other: &CanonicalPathBuf) -> (same: bool) {
        bytes_eq(self.path.logical(), other.path.logical())
    }
}

impl vstd::std_specs::cmp::PartialEqSpecImpl for CanonicalPathBuf {
    open spec fn obeys_eq_spec() -> bool {
        true
    }

    open spec fn eq_spec(&self, other: &CanonicalPathBuf) -> bool {
        self@ == other@
    }
}

/// Where `a` stands relative to `b` in the order of paths.
pub fn compare_bytes(a: &[u8], b: &[u8]) -> (o: Ordering)
    ensures
        o == Ordering::Less <==> path_lt(a@, b@),
        o == Ordering::Equal <==> a@ == b@,
        o == Ordering::Greater <==> path_lt(b@, a@),
{
    let n: usize = if a.len() < b.len() {
        a.len()
    } else {
        b.len()
    };
    let mut i: usize = 0;
    while i < n
        invariant
            n <= a@.len(),
            n <= b@.len(),
            n == a@.len() || n == b@.len(),
            i <= n,
            forall|j: int| 0 <= j < i ==> a@[j] == b@[j],
        decreases n - i,
    {
        if a[i] != b[i] {
            proof {
                lemma_order_at_index(a@, b@, i);
            }
            if a[i] < b[i] {
                return Ordering::Less;
            } else {
                return Ordering::Greater;
            }
        }
        i += 1;
    }
    proof {
        lemma_order_at_index(a@, b@, i);
    }
    if a.len() == b.len() {
        Ordering::Equal
    } else if a.len() < b.len() {
        if PATH_SEPARATOR <= b[i] {
            Ordering::Less
        } else {
            Ordering::Greater
        }
    } else if a[i] < PATH_SEPARATOR {
        Ordering::Less
    } else {
        Ordering::Greater
    }
}

/// Once two byte strings are known to agree up to `k` and to part there,
/// their order is decided by what stands at `k`.
pub proof fn lemma_bytes_order_at(a: Seq<u8>, b: Seq<u8>, k: int)
    requires
        common_prefix(a, b, k),
        k == a.len() || k == b.len() || a[k] != b[k],
    ensures
        bytes_lt(a, b) <==> (k < b.len() && (k == a.len() || a[k] < b[k])),
        bytes_lt(b, a) <==> (k < a.len() && (k == b.len() || b[k] < a[k])),
        a == b <==> (k == a.len() && k == b.len()),
{
    assert(common_prefix(b, a, k));
    if k == a.len() && k == b.len() {
        assert(a =~= b);
    }
    assert forall|m: int| #[trigger]
        common_prefix(a, b, m) && m < b.len() && (m == a.len() || a[m] < b[m]) implies m == k by {
        if m < k {
            assert(a[m] == b[m]);
        } else if m > k {
            assert(a[k] == b[k]);
        }
    }
    assert forall|m: int| #[trigger]
        common_prefix(b, a, m) && m < a.len() && (m == b.len() || b[m] < a[m]) implies m == k by {
        if m < k {
            assert(a[m] == b[m]);
        } else if m > k {
            assert(b[k] == a[k]);
        }
    }
}

/// Once two paths are known to agree up to `k` and to part there, their
/// order is decided by what stands at `k`.
pub proof fn lemma_order_at(a: Seq<u8>, b: Seq<u8>, k: int)
    requires
        common_prefix(a, b, k),
        k == a.len() || k == b.len() || a[k] != b[k],
    ensures
        path_lt(a, b) <==> parts_before(a, b, k),
        path_lt(b, a) <==> parts_before(b, a, k),
        a == b <==> (k == a.len() && k == b.len()),
{
    let x = a.push(PATH_SEPARATOR);
    let y = b.push(PATH_SEPARATOR);
    assert(a =~= x.drop_last());
    assert(b =~= y.drop_last());
    assert(common_prefix(x, y, k));
    if k == a.len() && k == b.len() {
        assert(a =~= b);
    } else if k < x.len() && k < y.len() && x[k] == y[k] {
        assert(common_prefix(x, y, k + 1));
        lemma_bytes_order_at(x, y, k + 1);
    } else {
        lemma_bytes_order_at(x, y, k);
    }
}

/// The same for an index into a slice.
pub proof fn lemma_order_at_index(a: Seq<u8>, b: Seq<u8>, k: usize)
    requires
        common_prefix(a, b, k as int),
        k == a.len() || k == b.len() || a[k as int] != b[k as int],
    ensures
        path_lt(a, b) <==> parts_before(a, b, k as int),
        path_lt(b, a) <==> parts_before(b, a, k as int),
        a == b <==> (k == a.len() && k == b.len()),
{
    lemma_order_at(a, b, k as int);
}

/// The place where two byte strings part: they agree before it, and at it
/// one of them ends or they differ.
pub proof fn lemma_parting(a: Seq<u8>, b: Seq<u8>, from: int) -> (k: int)
    requires
        common_prefix(a, b, from),
    ensures
        common_prefix(a, b, k),
        k == a.len() || k == b.len() || a[k] != b[k],
    decreases a.len() - from,
{
    if from == a.len() || from == b.len() || a[from] != b[from] {
        from
    } else {
        lemma_parting(a, b, from + 1)
    }
}

/// Of two paths exactly one holds: the first comes before the second, they
/// are the same, or the second comes before the first.
pub proof fn lemma_order_total(a: Seq<u8>, b: Seq<u8>)
    ensures
        path_lt(a, b) || a == b || path_lt(b, a),
        !(path_lt(a, b) && a == b),
        !(path_lt(a, b) && path_lt(b, a)),
        !(a == b && path_lt(b, a)),
{
    let k = lemma_parting(a, b, 0);
    lemma_order_at(a, b, k);
}

/// The order of byte strings is transitive.
pub proof fn lemma_bytes_order_transitive(a: Seq<u8>, b: Seq<u8>, c: Seq<u8>)
    requires
        bytes_lt(a, b),
        bytes_lt(b, c),
    ensures
        bytes_lt(a, c),
{
    let k1 = choose|k: int| #[trigger]
        common_prefix(a, b, k) && k < b.len() && (k == a.len() || a[k] < b[k]);
    let k2 = choose|k: int| #[trigger]
        common_prefix(b, c, k) && k < c.len() && (k == b.len() || b[k] < c[k]);
    let k = if k1 <= k2 {
        k1
    } else {
        k2
    };
    assert(common_prefix(a, c, k));
}

/// The order of paths is transitive.
pub proof fn lemma_order_transitive(a: Seq<u8>, b: Seq<u8>, c: Seq<u8>)
    requires
        path_lt(a, b),
        path_lt(b, c),
    ensures
        path_lt(a, c),
{
    lemma_bytes_order_transitive(
        a.push(PATH_SEPARATOR),
        b.push(PATH_SEPARATOR),
        c.push(PATH_SEPARATOR),
    );
}

/// A directory comes before everything below it.
pub proof fn lemma_parent_sorts_first(dir: Seq<u8>, path: Seq<u8>)
    requires
        is_below(path, dir),
    ensures
        path_lt(dir, path),
{
    let k = dir.len() as int;
    assert forall|j: int| 0 <= j < k implies dir[j] == path[j] by {
        assert(path.subrange(0, k)[j] == path[j]);
    }
    assert(common_prefix(dir, path, k));
    lemma_order_at(dir, path, k);
}

/// A path comes before whatever is made by joining a further component to
/// it, and that lies below the path.
pub proof fn lemma_join_sorts_after(base: Seq<u8>, name: Seq<u8>)
    ensures
        path_lt(base, joined(base, name)),
        is_below(joined(base, name), base),
{
    let path = joined(base, name);
    let k = base.len() as int;
    assert(path.subrange(0, k) =~= base);
    assert(path[k] == PATH_SEPARATOR);
    lemma_parent_sorts_first(base, path);
}

/// A directory and what is below it stand on the same side of every other
/// path: in the order of paths a subtree is one run, with nothing from
/// outside between its members.
pub proof fn lemma_subtree_together(dir: Seq<u8>, below: Seq<u8>, other: Seq<u8>)
    requires
        is_below(below, dir),
        other != dir,
        !is_below(other, dir),
    ensures
        other != below,
        path_lt(dir, other) == path_lt(below, other),
        path_lt(other, dir) == path_lt(other, below),
{
    let n = dir.len() as int;
    assert forall|j: int| 0 <= j < n implies dir[j] == below[j] by {
        assert(below.subrange(0, n)[j] == below[j]);
    }
    let k = lemma_parting(dir, other, 0);
    lemma_order_at(dir, other, k);
    if k == n {
        if k < other.len() {
            if other[k] == PATH_SEPARATOR {
                assert(other.subrange(0, n) =~= dir);
            } else {
                assert(common_prefix(below, other, k));
                lemma_order_at(below, other, k);
            }
        } else {
            assert(other =~= dir);
        }
    } else {
        assert(common_prefix(below, other, k));
        lemma_order_at(below, other, k);
    }
}

/// A path and the path made by joining a further component to it compare
/// alike with every path that is neither the first nor below it.
pub proof fn lemma_child_same_side(base: Seq<u8>, name: Seq<u8>, other: Seq<u8>)
    requires
        other != base,
        !is_below(other, base),
    ensures
        path_order(base, other) == path_order(joined(base, name), other),
{
    lemma_join_sorts_after(base, name);
    lemma_subtree_together(base, joined(base, name), other);
    lemma_order_total(base, other);
    lemma_order_total(joined(base, name), other);
}

impl std::ops::Deref for CanonicalPathBuf {
    type Target = CannonicalPath;

    fn deref(&self) -> (path: &CannonicalPath)
        ensures
            path@ == self@,
    {
        &self.path
    }
}

} // verus!
