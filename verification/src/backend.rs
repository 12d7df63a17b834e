//! The leaf backend: an in-memory store, the physical end of every chain.
//! It implements the full capability set over raw stored bytes; layers above
//! it decide what those bytes mean. Abstractly it is a map from paths to byte
//! sequences plus a set of directory paths.

use vstd::prelude::*;

use crate::buffer::Buffer;

verus! {

/// The error taxonomy every capability reports from.
#[derive(Clone, Copy, PartialEq, Eq, Structural, Debug)]
pub enum ErrorKind {
    /// The target path is absent.
    NotFound,
    /// A conflicting entry already exists.
    AlreadyExists,
    /// The caller may not perform the operation.
    PermissionDenied,
    /// The backend or configuration does not implement the capability.
    Unsupported,
    /// An internal failure, including any transform failure.
    Unexpected,
}

/// What kind of entry a path names.
#[derive(Clone, Copy, PartialEq, Eq, Structural, Debug)]
pub enum EntryMode {
    File,
    Dir,
}

/// Metadata returned by `stat`, carried unchanged through passthrough layers.
#[derive(Clone, Copy, PartialEq, Eq, Structural, Debug)]
pub struct Metadata {
    pub mode: EntryMode,
    pub content_length: usize,
}

struct FileEntry {
    path: String,
    data: Vec<u8>,
}

spec fn file_map(s: Seq<FileEntry>) -> Map<Seq<char>, Seq<u8>>
    decreases s.len(),
{
    if s.len() == 0 {
        Map::<Seq<char>, Seq<u8>>::empty()
    } else {
        file_map(s.drop_last()).insert(s.last().path@, s.last().data@)
    }
}

spec fn unique_paths(s: Seq<FileEntry>) -> bool {
    forall|i: int, j: int|
        #![trigger s[i].path@, s[j].path@]
        0 <= i < j < s.len() ==> s[i].path@ != s[j].path@
}

spec fn dir_set(s: Seq<String>) -> Set<Seq<char>>
    decreases s.len(),
{
    if s.len() == 0 {
        Set::<Seq<char>>::empty()
    } else {
        dir_set(s.drop_last()).insert(s.last()@)
    }
}

spec fn unique_dirs(s: Seq<String>) -> bool {
    forall|i: int, j: int| #![trigger s[i]@, s[j]@] 0 <= i < j < s.len() ==> s[i]@ != s[j]@
}

proof fn lemma_file_map_key(s: Seq<FileEntry>, k: Seq<char>)
    ensures
        file_map(s).contains_key(k) <==> exists|i: int| 0 <= i < s.len() && s[i].path@ == k,
    decreases s.len(),
{
    if s.len() > 0 {
        lemma_file_map_key(s.drop_last(), k);
        if s.last().path@ == k {
            assert(s[s.len() - 1].path@ == k);
        } else {
            if exists|i: int| 0 <= i < s.len() && s[i].path@ == k {
                let i = choose|i: int| 0 <= i < s.len() && s[i].path@ == k;
                assert(i < s.len() - 1);
                assert(s.drop_last()[i].path@ == k);
            }
            if exists|i: int| 0 <= i < s.drop_last().len() && s.drop_last()[i].path@ == k {
                let i = choose|i: int|
                    0 <= i < s.drop_last().len() && s.drop_last()[i].path@ == k;
                assert(s[i].path@ == k);
            }
        }
    }
}

proof fn lemma_unique_drop_last(s: Seq<FileEntry>)
    requires
        unique_paths(s),
        s.len() > 0,
    ensures
        unique_paths(s.drop_last()),
{
    assert forall|i: int, j: int|
        0 <= i < j < s.drop_last().len() implies #[trigger] s.drop_last()[i].path@
        != #[trigger] s.drop_last()[j].path@ by {
        assert(s.drop_last()[i] == s[i]);
        assert(s.drop_last()[j] == s[j]);
    }
}

proof fn lemma_file_map_at(s: Seq<FileEntry>, i: int)
    requires
        unique_paths(s),
        0 <= i < s.len(),
    ensures
        file_map(s).contains_key(s[i].path@),
        file_map(s)[s[i].path@] == s[i].data@,
    decreases s.len(),
{
    if i == s.len() - 1 {
    } else {
        assert(s[i].path@ != s.last().path@);
        lemma_unique_drop_last(s);
        assert(s.drop_last()[i] == s[i]);
        lemma_file_map_at(s.drop_last(), i);
    }
}

proof fn lemma_unique_remove(s: Seq<FileEntry>, i: int)
    requires
        unique_paths(s),
        0 <= i < s.len(),
    ensures
        unique_paths(s.remove(i)),
{
    let t = s.remove(i);
    assert forall|a: int, b: int|
        0 <= a < b < t.len() implies #[trigger] t[a].path@ != #[trigger] t[b].path@ by {
        let a0 = if a < i { a } else { a + 1 };
        let b0 = if b < i { b } else { b + 1 };
        assert(t[a] == s[a0]);
        assert(t[b] == s[b0]);
        assert(s[a0].path@ != s[b0].path@);
    }
}

proof fn lemma_file_map_remove(s: Seq<FileEntry>, i: int)
    requires
        unique_paths(s),
        0 <= i < s.len(),
    ensures
        file_map(s.remove(i)) == file_map(s).remove(s[i].path@),
    decreases s.len(),
{
    let k = s[i].path@;
    if i == s.len() - 1 {
        assert(s.remove(i) =~= s.drop_last());
        lemma_file_map_key(s.drop_last(), k);
        assert forall|j: int|
            0 <= j < s.drop_last().len() implies (#[trigger] s.drop_last()[j].path@) != k by {
            assert(s.drop_last()[j] == s[j]);
        }
        assert(!file_map(s.drop_last()).contains_key(k));
        assert(file_map(s.drop_last()) =~= file_map(s).remove(k));
    } else {
        let t = s.remove(i);
        assert(t.last() == s.last());
        assert(t.drop_last() =~= s.drop_last().remove(i));
        lemma_unique_drop_last(s);
        assert(s.drop_last()[i] == s[i]);
        lemma_file_map_remove(s.drop_last(), i);
        assert(file_map(t) == file_map(s.drop_last()).remove(k).insert(
            s.last().path@,
            s.last().data@,
        ));
        assert(s.last().path@ != k);
        assert(file_map(s.drop_last()).remove(k).insert(s.last().path@, s.last().data@)
            =~= file_map(s).remove(k));
    }
}

proof fn lemma_dir_set_key(s: Seq<String>, k: Seq<char>)
    ensures
        dir_set(s).contains(k) <==> exists|i: int| 0 <= i < s.len() && s[i]@ == k,
    decreases s.len(),
{
    if s.len() > 0 {
        lemma_dir_set_key(s.drop_last(), k);
        if s.last()@ == k {
            assert(s[s.len() - 1]@ == k);
        } else {
            if exists|i: int| 0 <= i < s.len() && s[i]@ == k {
                let i = choose|i: int| 0 <= i < s.len() && s[i]@ == k;
                assert(i < s.len() - 1);
                assert(s.drop_last()[i]@ == k);
            }
            if exists|i: int| 0 <= i < s.drop_last().len() && s.drop_last()[i]@ == k {
                let i = choose|i: int| 0 <= i < s.drop_last().len() && s.drop_last()[i]@ == k;
                assert(s[i]@ == k);
            }
        }
    }
}

proof fn lemma_unique_dirs_remove(s: Seq<String>, i: int)
    requires
        unique_dirs(s),
        0 <= i < s.len(),
    ensures
        unique_dirs(s.remove(i)),
{
    let t = s.remove(i);
    assert forall|a: int, b: int|
        0 <= a < b < t.len() implies (#[trigger] t[a]@) != (#[trigger] t[b]@) by {
        let a0 = if a < i { a } else { a + 1 };
        let b0 = if b < i { b } else { b + 1 };
        assert(t[a] == s[a0]);
        assert(t[b] == s[b0]);
        assert(s[a0]@ != s[b0]@);
    }
}

proof fn lemma_dir_set_remove(s: Seq<String>, i: int)
    requires
        unique_dirs(s),
        0 <= i < s.len(),
    ensures
        dir_set(s.remove(i)) == dir_set(s).remove(s[i]@),
    decreases s.len(),
{
    let k = s[i]@;
    if i == s.len() - 1 {
        assert(s.remove(i) =~= s.drop_last());
        lemma_dir_set_key(s.drop_last(), k);
        assert forall|j: int| 0 <= j < s.drop_last().len() implies #[trigger] s.drop_last()[j]@
            != k by {
            assert(s.drop_last()[j] == s[j]);
        }
        assert(dir_set(s.drop_last()) =~= dir_set(s).remove(k));
    } else {
        let t = s.remove(i);
        assert(t.last() == s.last());
        assert(t.drop_last() =~= s.drop_last().remove(i));
        assert forall|a: int, b: int|
            0 <= a < b < s.drop_last().len() implies #[trigger] s.drop_last()[a]@
            != #[trigger] s.drop_last()[b]@ by {
            assert(s.drop_last()[a] == s[a]);
            assert(s.drop_last()[b] == s[b]);
        }
        assert(s.drop_last()[i] == s[i]);
        lemma_dir_set_remove(s.drop_last(), i);
        assert(s.last()@ != k);
        assert(dir_set(s.drop_last()).remove(k).insert(s.last()@) =~= dir_set(s).remove(k));
    }
}

/// Copies a byte vector element by element.
fn copy_bytes(v: &Vec<u8>) -> (r: Vec<u8>)
    ensures
        r@ == v@,
{
    let mut out: Vec<u8> = Vec::new();
    let mut i: usize = 0;
    while i < v.len()
        invariant
            i <= v@.len(),
            out@ == v@.subrange(0, i as int),
        decreases v@.len() - i,
    {
        out.push(v[i]);
        i = i + 1;
        proof {
            assert(out@ =~= v@.subrange(0, i as int));
        }
    }
    proof {
        assert(out@ =~= v@);
    }
    out
}

/// The in-memory leaf backend.
pub struct MemoryBackend {
    entries: Vec<FileEntry>,
    dir_entries: Vec<String>,
}

impl MemoryBackend {
    /// Internal consistency: every path occurs at most once.
    pub closed spec fn wf(&self) -> bool {
        unique_paths(self.entries@) && unique_dirs(self.dir_entries@)
    }

    /// The stored files: path to raw stored bytes.
    pub closed spec fn files(&self) -> Map<Seq<char>, Seq<u8>> {
        file_map(self.entries@)
    }

    /// The created directories.
    pub closed spec fn dirs(&self) -> Set<Seq<char>> {
        dir_set(self.dir_entries@)
    }

    /// An empty store.
    pub fn new() -> (r: MemoryBackend)
        ensures
            r.wf(),
            r.files() == Map::<Seq<char>, Seq<u8>>::empty(),
            r.dirs() == Set::<Seq<char>>::empty(),
    {
        MemoryBackend { entries: Vec::new(), dir_entries: Vec::new() }
    }

    fn find(&self, path: &String) -> (r: Option<usize>)
        ensures
            match r {
                Some(i) => i < self.entries@.len() && self.entries@[i as int].path@ == path@,
                None => forall|i: int|
                    0 <= i < self.entries@.len() ==> (#[trigger] self.entries@[i].path@) != path@,
            },
    {
        let n = self.entries.len();
        let mut i: usize = 0;
        while i < n
            invariant
                n == self.entries@.len(),
                i <= n,
                forall|j: int| 0 <= j < i ==> (#[trigger] self.entries@[j].path@) != path@,
            decreases n - i,
        {
            if self.entries[i].path == *path {
                return Some(i);
            }
            i = i + 1;
        }
        None
    }

    fn find_dir(&self, path: &String) -> (r: Option<usize>)
        ensures
            match r {
                Some(i) => i < self.dir_entries@.len() && self.dir_entries@[i as int]@ == path@,
                None => forall|i: int|
                    0 <= i < self.dir_entries@.len() ==> (#[trigger] self.dir_entries@[i]@)
                        != path@,
            },
    {
        let n = self.dir_entries.len();
        let mut i: usize = 0;
        while i < n
            invariant
                n == self.dir_entries@.len(),
                i <= n,
                forall|j: int| 0 <= j < i ==> (#[trigger] self.dir_entries@[j]@) != path@,
            decreases n - i,
        {
            if self.dir_entries[i] == *path {
                return Some(i);
            }
            i = i + 1;
        }
        None
    }

    /// Stores `data` at `path`. A plain write replaces whatever was there; an
    /// append extends it (an absent file counts as empty).
    pub fn write(&mut self, path: &str, append: bool, data: &Buffer)
        requires
            old(self).wf(),
        ensures
            final(self).wf(),
            final(self).files() == (if append && old(self).files().contains_key(path@) {
                old(self).files().insert(path@, old(self).files()[path@] + data@)
            } else {
                old(self).files().insert(path@, data@)
            }),
            final(self).dirs() == old(self).dirs(),
    {
        let p: String = path.to_owned();
        let new_data: Vec<u8>;
        match self.find(&p) {
            Some(i) => {
                proof {
                    lemma_file_map_at(self.entries@, i as int);
                    lemma_file_map_remove(self.entries@, i as int);
                    lemma_unique_remove(self.entries@, i as int);
                }
                let e = self.entries.remove(i);
                if append {
                    let mut d = copy_bytes(&e.data);
                    let mut extra = data.to_vec();
                    d.append(&mut extra);
                    new_data = d;
                } else {
                    new_data = data.to_vec();
                }
                proof {
                    assert forall|j: int|
                        0 <= j < self.entries@.len() implies (#[trigger] self.entries@[j].path@)
                        != p@ by {
                        let j0 = if j < i as int {
                            j
                        } else {
                            j + 1
                        };
                        assert(self.entries@[j] == old(self).entries@[j0]);
                    }
                }
            },
            None => {
                new_data = data.to_vec();
                proof {
                    lemma_file_map_key(self.entries@, p@);
                    assert(!self.files().contains_key(p@));
                }
            },
        }
        let ghost pre = self.entries@;
        let entry = FileEntry { path: p, data: new_data };
        self.entries.push(entry);
        proof {
            assert(self.entries@.drop_last() =~= pre);
            assert forall|a: int, b: int|
                0 <= a < b < self.entries@.len() implies (#[trigger] self.entries@[a].path@)
                != (#[trigger] self.entries@[b].path@) by {
                if b < self.entries@.len() - 1 {
                    assert(self.entries@[a] == pre[a]);
                    assert(self.entries@[b] == pre[b]);
                } else {
                    assert(self.entries@[a] == pre[a]);
                }
            }
            assert(final(self).files() =~= (if append && old(self).files().contains_key(path@) {
                old(self).files().insert(path@, old(self).files()[path@] + data@)
            } else {
                old(self).files().insert(path@, data@)
            }));
        }
    }

    /// The raw stored bytes at `path`; `NotFound` exactly when no file is
    /// stored there.
    pub fn read(&self, path: &str) -> (r: Result<Buffer, ErrorKind>)
        requires
            self.wf(),
        ensures
            match r {
                Ok(b) => self.files().contains_key(path@) && b@ == self.files()[path@],
                Err(k) => k == ErrorKind::NotFound && !self.files().contains_key(path@),
            },
    {
        let p: String = path.to_owned();
        match self.find(&p) {
            Some(i) => {
                proof {
                    lemma_file_map_at(self.entries@, i as int);
                }
                Ok(Buffer::from_vec(copy_bytes(&self.entries[i].data)))
            },
            None => {
                proof {
                    lemma_file_map_key(self.entries@, p@);
                }
                Err(ErrorKind::NotFound)
            },
        }
    }

    /// Metadata of the entry at `path`: a file's stored length, or a
    /// directory marker; `NotFound` exactly when neither exists.
    pub fn stat(&self, path: &str) -> (r: Result<Metadata, ErrorKind>)
        requires
            self.wf(),
        ensures
            match r {
                Ok(m) => if self.files().contains_key(path@) {
                    m.mode == EntryMode::File && m.content_length == self.files()[path@].len()
                } else {
                    self.dirs().contains(path@) && m.mode == EntryMode::Dir && m.content_length
                        == 0
                },
                Err(k) => k == ErrorKind::NotFound && !self.files().contains_key(path@)
                    && !self.dirs().contains(path@),
            },
    {
        let p: String = path.to_owned();
        match self.find(&p) {
            Some(i) => {
                proof {
                    lemma_file_map_at(self.entries@, i as int);
                }
                Ok(Metadata { mode: EntryMode::File, content_length: self.entries[i].data.len() })
            },
            None => {
                proof {
                    lemma_file_map_key(self.entries@, p@);
                }
                match self.find_dir(&p) {
                    Some(i) => {
                        proof {
                            lemma_dir_set_key(self.dir_entries@, p@);
                        }
                        Ok(Metadata { mode: EntryMode::Dir, content_length: 0 })
                    },
                    None => {
                        proof {
                            lemma_dir_set_key(self.dir_entries@, p@);
                        }
                        Err(ErrorKind::NotFound)
                    },
                }
            },
        }
    }

    /// Removes whatever is stored at `path`; absent paths are fine (deletion
    /// is idempotent).
    pub fn delete(&mut self, path: &str)
        requires
            old(self).wf(),
        ensures
            final(self).wf(),
            final(self).files() == old(self).files().remove(path@),
            final(self).dirs() == old(self).dirs().remove(path@),
    {
        let p: String = path.to_owned();
        match self.find(&p) {
            Some(i) => {
                proof {
                    lemma_file_map_remove(self.entries@, i as int);
                    lemma_unique_remove(self.entries@, i as int);
                }
                self.entries.remove(i);
            },
            None => {
                proof {
                    lemma_file_map_key(self.entries@, p@);
                    assert(!self.files().contains_key(p@));
                    assert(self.files().remove(p@) =~= self.files());
                }
            },
        }
        match self.find_dir(&p) {
            Some(i) => {
                proof {
                    lemma_dir_set_remove(self.dir_entries@, i as int);
                    lemma_unique_dirs_remove(self.dir_entries@, i as int);
                }
                self.dir_entries.remove(i);
            },
            None => {
                proof {
                    lemma_dir_set_key(self.dir_entries@, p@);
                    assert(!self.dirs().contains(p@));
                    assert(self.dirs().remove(p@) =~= self.dirs());
                }
            },
        }
    }

    /// Every stored file path, in storage order, each exactly once.
    pub fn list(&self) -> (r: Vec<String>)
        requires
            self.wf(),
        ensures
            forall|i: int| 0 <= i < r@.len() ==> self.files().contains_key(#[trigger] r@[i]@),
            forall|i: int, j: int|
                #![trigger r@[i]@, r@[j]@]
                0 <= i < j < r@.len() ==> r@[i]@ != r@[j]@,
            forall|k: Seq<char>|
                #[trigger] self.files().contains_key(k) ==> exists|i: int|
                    0 <= i < r@.len() && r@[i]@ == k,
    {
        let n = self.entries.len();
        let mut out: Vec<String> = Vec::new();
        let mut i: usize = 0;
        while i < n
            invariant
                n == self.entries@.len(),
                i <= n,
                out@.len() == i,
                forall|j: int| 0 <= j < i ==> (#[trigger] out@[j]@) == self.entries@[j].path@,
            decreases n - i,
        {
            out.push(self.entries[i].path.clone());
            i = i + 1;
        }
        proof {
            assert forall|j: int|
                0 <= j < out@.len() implies self.files().contains_key(#[trigger] out@[j]@) by {
                lemma_file_map_at(self.entries@, j);
            }
            assert forall|k: Seq<char>| #[trigger]
                self.files().contains_key(k) implies exists|j: int|
                0 <= j < out@.len() && out@[j]@ == k by {
                lemma_file_map_key(self.entries@, k);
                let j = choose|j: int| 0 <= j < self.entries@.len() && self.entries@[j].path@ == k;
                assert(out@[j]@ == k);
            }
        }
        out
    }

    /// Marks `path` as a directory; creating it again changes nothing.
    pub fn create_dir(&mut self, path: &str)
        requires
            old(self).wf(),
        ensures
            final(self).wf(),
            final(self).files() == old(self).files(),
            final(self).dirs() == old(self).dirs().insert(path@),
    {
        let p: String = path.to_owned();
        match self.find_dir(&p) {
            Some(i) => {
                proof {
                    lemma_dir_set_key(self.dir_entries@, p@);
                    assert(self.dirs().contains(p@));
                    assert(self.dirs().insert(p@) =~= self.dirs());
                }
            },
            None => {
                let ghost pre = self.dir_entries@;
                self.dir_entries.push(p);
                proof {
                    assert(self.dir_entries@.drop_last() =~= pre);
                    assert forall|a: int, b: int|
                        0 <= a < b < self.dir_entries@.len() implies (
                        #[trigger] self.dir_entries@[a]@) != (#[trigger] self.dir_entries@[b]@) by {
                        if b < self.dir_entries@.len() - 1 {
                            assert(self.dir_entries@[a] == pre[a]);
                            assert(self.dir_entries@[b] == pre[b]);
                        } else {
                            assert(self.dir_entries@[a] == pre[a]);
                        }
                    }
                }
            },
        }
    }

    /// Duplicates the file at `from` to `to`, replacing any file already at
    /// `to`; `NotFound` exactly when `from` holds no file.
    pub fn copy(&mut self, from: &str, to: &str) -> (r: Result<(), ErrorKind>)
        requires
            old(self).wf(),
        ensures
            final(self).wf(),
            final(self).dirs() == old(self).dirs(),
            match r {
                Ok(()) => old(self).files().contains_key(from@) && final(self).files() == old(
                    self,
                ).files().insert(to@, old(self).files()[from@]),
                Err(k) => k == ErrorKind::NotFound && !old(self).files().contains_key(from@)
                    && final(self).files() == old(self).files(),
            },
    {
        let f: String = from.to_owned();
        match self.find(&f) {
            Some(i) => {
                proof {
                    lemma_file_map_at(self.entries@, i as int);
                }
                let data = Buffer::from_vec(copy_bytes(&self.entries[i].data));
                self.write(to, false, &data);
                Ok(())
            },
            None => {
                proof {
                    lemma_file_map_key(self.entries@, f@);
                }
                Err(ErrorKind::NotFound)
            },
        }
    }

    /// Moves the file at `from` to `to`, replacing any file already at `to`;
    /// `NotFound` exactly when `from` holds no file.
    pub fn rename(&mut self, from: &str, to: &str) -> (r: Result<(), ErrorKind>)
        requires
            old(self).wf(),
        ensures
            final(self).wf(),
            final(self).dirs() == old(self).dirs(),
            match r {
                Ok(()) => old(self).files().contains_key(from@) && final(self).files() == old(
                    self,
                ).files().remove(from@).insert(to@, old(self).files()[from@]),
                Err(k) => k == ErrorKind::NotFound && !old(self).files().contains_key(from@)
                    && final(self).files() == old(self).files(),
            },
    {
        let f: String = from.to_owned();
        match self.find(&f) {
            Some(i) => {
                proof {
                    lemma_file_map_at(self.entries@, i as int);
                    lemma_file_map_remove(self.entries@, i as int);
                    lemma_unique_remove(self.entries@, i as int);
                }
                let e = self.entries.remove(i);
                let data = Buffer::from_vec(e.data);
                self.write(to, false, &data);
                Ok(())
            },
            None => {
                proof {
                    lemma_file_map_key(self.entries@, f@);
                }
                Err(ErrorKind::NotFound)
            },
        }
    }

    /// The in-memory backend cannot presign URLs: the capability is reported
    /// as unsupported for every path.
    pub fn presign(&self, path: &str) -> (r: Result<String, ErrorKind>)
        ensures
            match r {
                Ok(_) => false,
                Err(k) => k == ErrorKind::Unsupported,
            },
    {
        let _: &str = path;
        Err(ErrorKind::Unsupported)
    }
}

} // verus!
