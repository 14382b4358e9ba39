use vstd::prelude::*;
use crate::errors::{Error, configuration_failure};

verus! {

/// Content-addressed byte storage: each distinct byte sequence is kept once.
pub struct ArchiveStore {
    blobs: Vec<Vec<u8>>,
}

/// The identity of a stored byte sequence.
#[derive(Clone, Copy, Debug, PartialEq, Eq, Structural)]
pub struct BlobHandle {
    pub index: usize,
}

/// A mapping from relative paths to stored blobs.
pub struct Archive {
    files: Vec<(String, ArchiveFile)>,
}

#[derive(Clone, Copy, Debug, PartialEq, Eq, Structural)]
pub struct ArchiveFile {
    pub handle: BlobHandle,
    pub executable: bool,
}

pub open spec fn no_duplicates<T>(s: Seq<T>) -> bool {
    forall|i: int, j: int| 0 <= i < j < s.len() ==> #[trigger] s[i] != #[trigger] s[j]
}

impl ArchiveStore {
    /// The stored blobs; a handle is an index into this sequence.
    pub closed spec fn contents(&self) -> Seq<Seq<u8>> {
        self.blobs@.map_values(|b: Vec<u8>| b@)
    }

    /// Each byte sequence is stored at most once.
    pub open spec fn wf(&self) -> bool {
        no_duplicates(self.contents())
    }

    pub open spec fn issued(&self, h: BlobHandle) -> bool {
        h.index < self.contents().len()
    }

    /// An empty store.
    pub fn new() -> (r: ArchiveStore)
        ensures
            r.wf(),
            r.contents() == Seq::<Seq<u8>>::empty(),
    {
        let r = ArchiveStore { blobs: Vec::new() };
        assert(r.contents() =~= Seq::<Seq<u8>>::empty());
        r
    }

    /// Stores `data` and returns its handle: the handle it already has where these bytes
    /// were stored before, else a new one.
    pub fn store_blob(&mut self, data: Vec<u8>) -> (r: BlobHandle)
        requires
            old(self).wf(),
        ensures
            final(self).wf(),
            final(self).issued(r),
            final(self).contents()[r.index as int] == data@,
            old(self).contents().contains(data@) ==> final(self).contents() == old(
                self,
            ).contents(),
            !old(self).contents().contains(data@) ==> final(self).contents() == old(
                self,
            ).contents().push(data@),
            old(self).contents().len() <= final(self).contents().len(),
            final(self).contents().subrange(0, old(self).contents().len() as int) == old(
                self,
            ).contents(),
    {
        let ghost c = self.contents();
        let mut i: usize = 0;
        while i < self.blobs.len()
            invariant
                i <= self.blobs@.len(),
                c == self.contents(),
                self.wf(),
                forall|k: int| 0 <= k < i ==> #[trigger] c[k] != data@,
            decreases self.blobs@.len() - i,
        {
            assert(c[i as int] == self.blobs@[i as int]@);
            if bytes_eq(&self.blobs[i], &data) {
                assert(self.contents().subrange(0, c.len() as int) =~= c);
                return BlobHandle { index: i };
            }
            i += 1;
        }
        let ghost dv = data@;
        self.blobs.push(data);
        assert(self.contents() =~= c.push(dv));
        assert(self.contents().subrange(0, c.len() as int) =~= c);
        BlobHandle { index: i }
    }

    /// The bytes behind a handle that this store issued.
    pub fn fetch(&self, h: BlobHandle) -> (r: &Vec<u8>)
        requires
            self.issued(h),
        ensures
            r@ == self.contents()[h.index as int],
    {
        &self.blobs[h.index]
    }
}

fn bytes_eq(a: &Vec<u8>, b: &Vec<u8>) -> (r: bool)
    ensures
        r == (a@ == b@),
{
    if a.len() != b.len() {
        return false;
    }
    let mut i: usize = 0;
    while i < a.len()
        invariant
            i <= a@.len() == b@.len(),
            forall|k: int| 0 <= k < i ==> a@[k] == b@[k],
        decreases a@.len() - i,
    {
        if a[i] != b[i] {
            return false;
        }
        i += 1;
    }
    assert(a@ =~= b@);
    true
}

/// In a well-formed store, two issued handles are equal exactly when their bytes are.
pub proof fn lemma_content_addressing(s: &ArchiveStore, h1: BlobHandle, h2: BlobHandle)
    requires
        s.wf(),
        s.issued(h1),
        s.issued(h2),
    ensures
        (h1 == h2) <==> (s.contents()[h1.index as int] == s.contents()[h2.index as int]),
{
    if h1.index < h2.index {
        assert(s.contents()[h1.index as int] != s.contents()[h2.index as int]);
    } else if h2.index < h1.index {
        assert(s.contents()[h2.index as int] != s.contents()[h1.index as int]);
    }
}

/// Same bytes, same handle: a later state of the store (one that extends an earlier one)
/// holds given bytes under the handle that the earlier state gave them.
pub proof fn lemma_same_bytes_same_handle(
    s1: &ArchiveStore,
    s2: &ArchiveStore,
    data: Seq<u8>,
    h1: BlobHandle,
    h2: BlobHandle,
)
    requires
        s2.wf(),
        s1.issued(h1),
        s1.contents()[h1.index as int] == data,
        s2.issued(h2),
        s2.contents()[h2.index as int] == data,
        s1.contents().len() <= s2.contents().len(),
        s2.contents().subrange(0, s1.contents().len() as int) == s1.contents(),
    ensures
        h1 == h2,
{
    assert(s2.contents().subrange(0, s1.contents().len() as int)[h1.index as int] == data);
    assert(s2.issued(h1));
    lemma_content_addressing(s2, h1, h2);
}

/// Every path of a well-formed archive is valid (relative, forward slashes only, no `:`, no
/// `..` segment) and no two entries share a path.
pub proof fn lemma_archive_paths(a: &Archive)
    requires
        a.wf(),
    ensures
        forall|i: int| 0 <= i < a.entries().len() ==> valid_archive_path(#[trigger] a.entries()[i].0),
        forall|i: int, j: int|
            0 <= i < a.entries().len() && 0 <= j < a.entries().len() && i != j ==> (
            #[trigger] a.entries()[i]).0 != (#[trigger] a.entries()[j]).0,
{
    assert forall|i: int, j: int|
        0 <= i < a.entries().len() && 0 <= j < a.entries().len() && i != j implies (
        #[trigger] a.entries()[i]).0 != (#[trigger] a.entries()[j]).0 by {
        if j < i {
            assert(a.entries()[j].0 != a.entries()[i].0);
        }
    }
}

/// A path that the archive accepts: relative, with forward slashes only, without `:` and
/// without a `..` segment.
pub open spec fn valid_archive_path(p: Seq<char>) -> bool {
    &&& p.len() > 0
    &&& p[0] != '/'
    &&& !p.contains('\\')
    &&& !p.contains(':')
    &&& !has_parent_segment(p)
}

pub open spec fn has_parent_segment(p: Seq<char>) -> bool {
    exists|i: int|
        0 <= i && i + 2 <= p.len() && #[trigger] p[i] == '.' && p[i + 1] == '.' && (i == 0 || p[i
            - 1] == '/') && (i + 2 == p.len() || p[i + 2] == '/')
}

pub open spec fn entry_views(v: Seq<(String, ArchiveFile)>) -> Seq<(Seq<char>, ArchiveFile)> {
    v.map_values(|e: (String, ArchiveFile)| (e.0@, e.1))
}

pub open spec fn path_index(v: Seq<(Seq<char>, ArchiveFile)>, p: Seq<char>) -> int {
    choose|i: int| 0 <= i < v.len() && (#[trigger] v[i]).0 == p
}

impl Archive {
    /// The entries, in insertion order.
    pub closed spec fn entries(&self) -> Seq<(Seq<char>, ArchiveFile)> {
        entry_views(self.files@)
    }

    /// Every path is valid and appears once.
    pub open spec fn wf(&self) -> bool {
        &&& forall|i: int|
            0 <= i < self.entries().len() ==> valid_archive_path((#[trigger] self.entries()[i]).0)
        &&& forall|i: int, j: int|
            0 <= i < j < self.entries().len() ==> (#[trigger] self.entries()[i]).0 != (
            #[trigger] self.entries()[j]).0
    }

    pub open spec fn has_path(&self, p: Seq<char>) -> bool {
        exists|i: int| 0 <= i < self.entries().len() && (#[trigger] self.entries()[i]).0 == p
    }

    /// The number of entries.
    pub fn len(&self) -> (r: usize)
        ensures
            r == self.entries().len(),
    {
        self.files.len()
    }

    /// The entry of path `name`, if there is one.
    pub fn get(&self, name: &String) -> (r: Option<ArchiveFile>)
        ensures
            r is Some <==> self.has_path(name@),
            r matches Some(f) ==> exists|i: int|
                0 <= i < self.entries().len() && #[trigger] self.entries()[i] == (name@, f),
    {
        let mut i: usize = 0;
        while i < self.files.len()
            invariant
                i <= self.files@.len(),
                forall|k: int| 0 <= k < i ==> (#[trigger] self.entries()[k]).0 != name@,
            decreases self.files@.len() - i,
        {
            assert(self.entries()[i as int] == (self.files@[i as int].0@, self.files@[i as int].1));
            if self.files[i].0 == *name {
                return Some(self.files[i].1);
            }
            i += 1;
        }
        None
    }

    /// An empty archive.
    pub fn new() -> (r: Archive)
        ensures
            r.wf(),
            r.entries() == Seq::<(Seq<char>, ArchiveFile)>::empty(),
    {
        let r = Archive { files: Vec::new() };
        assert(r.entries() =~= Seq::<(Seq<char>, ArchiveFile)>::empty());
        r
    }

    /// Maps `name` to the blob: replaces the entry of that path, or adds one. A path that is
    /// absolute, holds `\`, `:` or a `..` segment, or is empty is refused.
    pub fn add_file(&mut self, name: String, blob: BlobHandle, executable: bool) -> (r: Result<
        (),
        Error,
    >)
        requires
            old(self).wf(),
        ensures
            final(self).wf(),
            r is Ok <==> valid_archive_path(name@),
            r is Err ==> final(self).entries() == old(self).entries(),
            r matches Err(e) ==> e is ConfigurationFailure,
            r is Ok && old(self).has_path(name@) ==> final(self).entries() == old(
                self,
            ).entries().update(
                path_index(old(self).entries(), name@),
                (name@, ArchiveFile { handle: blob, executable }),
            ),
            r is Ok && !old(self).has_path(name@) ==> final(self).entries() == old(
                self,
            ).entries().push((name@, ArchiveFile { handle: blob, executable })),
            r is Ok ==> final(self).has_path(name@),
            r is Ok ==> forall|p: Seq<char>| old(self).has_path(p) ==> #[trigger] final(self).has_path(p),
    {
        if !path_ok(&name) {
            return Err(configuration_failure("an archive path must be relative and safe"));
        }
        let ghost e = self.entries();
        let ghost nv = name@;
        let file = ArchiveFile { handle: blob, executable };
        let mut i: usize = 0;
        while i < self.files.len()
            invariant
                i <= self.files@.len(),
                e == self.entries(),
                e == old(self).entries(),
                self.wf(),
                nv == name@,
                valid_archive_path(nv),
                file == (ArchiveFile { handle: blob, executable }),
                forall|k: int| 0 <= k < i ==> (#[trigger] e[k]).0 != nv,
            decreases self.files@.len() - i,
        {
            assert(e[i as int].0 == self.files@[i as int].0@);
            if self.files[i].0 == name {
                proof {
                    let j = path_index(e, nv);
                    assert(e[i as int].0 == nv);
                    assert(e[j].0 == nv);
                    if j < i {
                        assert(e[j].0 != e[i as int].0);
                    } else if j > i {
                        assert(e[i as int].0 != e[j].0);
                    }
                    assert(j == i as int);
                }
                let entry = (name, file);
                let ghost fv = self.files@;
                self.files.set(i, entry);
                assert(self.files@ == fv.update(i as int, entry));
                assert(self.entries() =~= e.update(i as int, (nv, file)));
                assert(self.entries()[i as int].0 == nv);
                assert forall|p: Seq<char>| old(self).has_path(p) implies #[trigger] self.has_path(p) by {
                    let w = choose|w: int| 0 <= w < e.len() && (#[trigger] e[w]).0 == p;
                    assert(self.entries()[w].0 == p);
                }
                return Ok(());
            }
            i += 1;
        }
        self.files.push((name, file));
        assert(self.entries() =~= e.push((nv, file)));
        assert(self.entries()[e.len() as int].0 == nv);
        assert forall|p: Seq<char>| old(self).has_path(p) implies #[trigger] self.has_path(p) by {
            let w = choose|w: int| 0 <= w < e.len() && (#[trigger] e[w]).0 == p;
            assert(self.entries()[w].0 == p);
        }
        Ok(())
    }
}

/// Whether a path is one that the archive accepts.
pub fn path_ok(name: &String) -> (r: bool)
    ensures
        r == valid_archive_path(name@),
{
    let p = crate::problem::token::chars_of(name.as_str());
    let n = p.len();
    if n == 0 || p[0] == '/' {
        return false;
    }
    let mut i: usize = 0;
    while i < n
        invariant
            n == p@.len(),
            p@ == name@,
            i <= n,
            forall|k: int| 0 <= k < i ==> p@[k] != '\\' && p@[k] != ':',
            forall|k: int|
                0 <= k < i ==> !(#[trigger] p@[k] == '.' && k + 2 <= n && p@[k + 1] == '.' && (k
                    == 0 || p@[k - 1] == '/') && (k + 2 == n || p@[k + 2] == '/')),
        decreases n - i,
    {
        let c = p[i];
        if c == '\\' || c == ':' {
            return false;
        }
        if c == '.' && n - i >= 2 && p[i + 1] == '.' && (i == 0 || p[i - 1] == '/') && (n - i
            == 2 || p[i + 2] == '/') {
            return false;
        }
        i += 1;
    }
    true
}

} // verus!
